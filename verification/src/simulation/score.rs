//! Precomputed pairwise interaction scores.
//!
//! For every ordered pair of positions within the preference window the
//! scorer caches the attraction score and the normalized density
//! difference of the tiles there, so ranking candidate destinations is a
//! table lookup.  Only half of each pair is stored: attraction is
//! symmetric and the density difference flips sign under mirroring.

use vstd::prelude::*;

use crate::grid::Grid;
use crate::scalar::{
    add_fp, clamp_scalar, div_fp, in_bounds, mul_fp, spec_add, spec_clamp, spec_div, spec_mul,
    spec_tdiv, SCALE,
};
use crate::simulation::config::Config;
use crate::simulation::conflict::PotentialMoves;
use crate::simulation::{spec_adhesion, spec_attractive_force, spec_density, State, Tile};

verus! {

/// Extent of the square preference window.
pub const WINDOW_SIZE: isize = 5;

/// Half of the window extent, rounded down.
pub const WINDOW_SIZE_OV_2: isize = 2;

/// Stored offsets per position: the lexicographically non-negative half
/// of the window, center included.
pub const BUCKET_SIZE: usize = 13;

/// The tile at a coordinate; absent outside the grid.
pub open spec fn spec_tile_at(g: Grid<Tile>, x: int, y: int) -> Option<Tile> {
    if g.spec_contains(x, y) {
        Some(g.spec_cell(x, y))
    } else {
        None
    }
}

/// The attraction half of a pair score.  An absent partner contributes
/// the present tile's squared adhesion (the edge behaves as a passive
/// adherent); two absent cells contribute nothing.
pub open spec fn spec_pair_attraction(
    g: Grid<Tile>,
    config: Config,
    tx: int,
    ty: int,
    ox: int,
    oy: int,
) -> int {
    match (spec_tile_at(g, tx, ty), spec_tile_at(g, ox, oy)) {
        (Some(t), Some(o)) => spec_attractive_force(t, o, config),
        (Some(t), None) => spec_mul(spec_adhesion(t, config), spec_adhesion(t, config)),
        (None, Some(o)) => spec_mul(spec_adhesion(o, config), spec_adhesion(o, config)),
        (None, None) => 0,
    }
}

/// The normalized density difference `(od - td) / (od + td)` of a pair,
/// seen from the tile at `(tx, ty)`; zero when either cell is absent or
/// the densities do not sum to a positive value.
pub open spec fn spec_pair_density_diff(
    g: Grid<Tile>,
    config: Config,
    tx: int,
    ty: int,
    ox: int,
    oy: int,
) -> int {
    match (spec_tile_at(g, tx, ty), spec_tile_at(g, ox, oy)) {
        (Some(t), Some(o)) => {
            let td = spec_density(t, config);
            let od = spec_density(o, config);
            if od + td > 0 {
                spec_div(od - td, od + td)
            } else {
                0
            }
        },
        _ => 0,
    }
}

/// Truncating division commutes with negating the numerator.
proof fn lemma_tdiv_neg(a: int, b: int)
    requires
        b > 0,
    ensures
        spec_tdiv(-a, b) == -spec_tdiv(a, b),
{
}

/// Clamping into a symmetric range commutes with negation.
proof fn lemma_clamp_neg(a: int)
    ensures
        spec_clamp(-a) == -spec_clamp(a),
{
}

/// Pair scores are symmetric in the attraction component and
/// antisymmetric in the density component: swapping the two positions
/// keeps the attraction and flips the sign of the density difference.
pub proof fn lemma_pair_symmetry(
    g: Grid<Tile>,
    config: Config,
    tx: int,
    ty: int,
    ox: int,
    oy: int,
)
    ensures
        spec_pair_attraction(g, config, tx, ty, ox, oy) == spec_pair_attraction(
            g,
            config,
            ox,
            oy,
            tx,
            ty,
        ),
        spec_pair_density_diff(g, config, tx, ty, ox, oy) == -spec_pair_density_diff(
            g,
            config,
            ox,
            oy,
            tx,
            ty,
        ),
{
    match (spec_tile_at(g, tx, ty), spec_tile_at(g, ox, oy)) {
        (Some(t), Some(o)) => {
            assert(spec_cohesion_comm(t, o, config)) by {
                lemma_mul_comm(
                    crate::simulation::spec_cohesion(t, config),
                    crate::simulation::spec_cohesion(o, config),
                );
                lemma_mul_comm(
                    crate::simulation::spec_adhesion(t, config),
                    crate::simulation::spec_adhesion(o, config),
                );
            }
            let td = spec_density(t, config);
            let od = spec_density(o, config);
            if od + td > 0 {
                lemma_tdiv_neg((od - td) * SCALE, od + td);
                lemma_clamp_neg(spec_tdiv((od - td) * SCALE, od + td));
                assert((td - od) * SCALE == -((od - td) * SCALE)) by (nonlinear_arith);
            }
        },
        _ => {},
    }
}

/// The two attraction formulas agree under swapping the pair.
spec fn spec_cohesion_comm(t: Tile, o: Tile, config: Config) -> bool {
    spec_attractive_force(t, o, config) == spec_attractive_force(o, t, config)
}

/// Fixed-point multiplication is commutative.
proof fn lemma_mul_comm(a: int, b: int)
    ensures
        spec_mul(a, b) == spec_mul(b, a),
{
    assert(a * b == b * a) by (nonlinear_arith);
}

/// Flat index of a stored bucket: position (padded), then slot.
pub open spec fn flat3(pw: int, a: int, b: int, s: int) -> int {
    (b * pw + a) * (BUCKET_SIZE as int) + s
}

/// The slot of a stored window offset, and its decoding.
pub open spec fn slot_of(dx: int, dy: int) -> int {
    dy * (WINDOW_SIZE as int) + dx
}

pub open spec fn slot_dx(s: int) -> int {
    if s < 3 {
        s
    } else if s < 8 {
        s - 5
    } else {
        s - 10
    }
}

pub open spec fn slot_dy(s: int) -> int {
    if s < 3 {
        0
    } else if s < 8 {
        1
    } else {
        2
    }
}

/// A window offset in the stored half-pattern.
pub open spec fn stored_offset(dx: int, dy: int) -> bool {
    (dy == 0 && 0 <= dx <= 2) || (1 <= dy <= 2 && -2 <= dx <= 2)
}

/// Slots are within the bucket and decode back to their offset.
proof fn lemma_slot(dx: int, dy: int)
    requires
        stored_offset(dx, dy),
    ensures
        0 <= slot_of(dx, dy) < BUCKET_SIZE,
        slot_dx(slot_of(dx, dy)) == dx,
        slot_dy(slot_of(dx, dy)) == dy,
{
}

/// Flat bucket indices stay within the table and are ordered by the
/// lexicographic order of (position, slot).
proof fn lemma_flat3_bounds(pw: int, ph: int, a: int, b: int, s: int)
    requires
        0 <= a < pw <= 4100,
        0 <= b < ph <= 4100,
        0 <= s < BUCKET_SIZE,
    ensures
        0 <= flat3(pw, a, b, s) < pw * ph * (BUCKET_SIZE as int),
        flat3(pw, a, b, s) + (BUCKET_SIZE as int) - s <= pw * ph * (BUCKET_SIZE as int),
        0 <= b * pw + a < pw * ph,
        pw * ph <= 4100 * 4100,
{
    assert(0 <= (b * pw + a) * 13 + s && (b * pw + a) * 13 + 13 <= pw * ph * 13 && 0 <= b * pw + a
        < pw * ph && pw * ph <= 4100 * 4100) by (nonlinear_arith)
        requires
            0 <= a < pw <= 4100,
            0 <= b < ph <= 4100,
            0 <= s < 13,
    ;
}

/// Two valid (position, slot) triples with the same flat index agree.
proof fn lemma_flat3_injective(
    pw: int,
    ph: int,
    a1: int,
    b1: int,
    s1: int,
    a2: int,
    b2: int,
    s2: int,
)
    requires
        0 <= a1 < pw <= 4100,
        0 <= b1 < ph <= 4100,
        0 <= s1 < BUCKET_SIZE,
        0 <= a2 < pw,
        0 <= b2 < ph,
        0 <= s2 < BUCKET_SIZE,
        flat3(pw, a1, b1, s1) == flat3(pw, a2, b2, s2),
    ensures
        a1 == a2 && b1 == b2 && s1 == s2,
{
    assert((b1 * pw + a1) * 13 + s1 == (b2 * pw + a2) * 13 + s2 && 0 <= s1 < 13 && 0 <= s2 < 13
        ==> b1 * pw + a1 == b2 * pw + a2 && s1 == s2) by (nonlinear_arith);
    assert(b1 * pw + a1 == b2 * pw + a2 && 0 <= a1 < pw && 0 <= a2 < pw ==> a1 == a2 && b1 == b2)
        by (nonlinear_arith);
}


/// Relative offsets of a destination's eight neighbors, row-major.
pub open spec fn spec_neighbor_offset(i: int) -> (int, int) {
    if i == 0 {
        (-1, -1)
    } else if i == 1 {
        (0, -1)
    } else if i == 2 {
        (1, -1)
    } else if i == 3 {
        (-1, 0)
    } else if i == 4 {
        (1, 0)
    } else if i == 5 {
        (-1, 1)
    } else if i == 6 {
        (0, 1)
    } else {
        (1, 1)
    }
}

/// The i-th neighbor of the destination, with the self-substitution
/// rule: a neighbor that is the mover's own (vacated) cell is replaced
/// by the destination, whose current occupant takes the mover's place.
pub open spec fn spec_selected_neighbor(tx: int, ty: int, x: int, y: int, i: int) -> (int, int) {
    let o = (x + spec_neighbor_offset(i).0, y + spec_neighbor_offset(i).1);
    if o == (tx, ty) {
        (x, y)
    } else {
        o
    }
}

/// Clamped weighted sum of the attraction scores of the first `i`
/// selected neighbors.
pub open spec fn spec_att_sum(
    g: Grid<Tile>,
    config: Config,
    tx: int,
    ty: int,
    x: int,
    y: int,
    i: int,
) -> int
    decreases i,
{
    if i <= 0 {
        0
    } else {
        let o = spec_selected_neighbor(tx, ty, x, y, i - 1);
        spec_add(
            spec_att_sum(g, config, tx, ty, x, y, i - 1),
            spec_mul(
                config.neighbor_attraction_weights@[i - 1] as int,
                spec_pair_attraction(g, config, tx, ty, o.0, o.1),
            ),
        )
    }
}

/// Clamped weighted sum of the density differences of the first `i`
/// selected neighbors.
pub open spec fn spec_dens_sum(
    g: Grid<Tile>,
    config: Config,
    tx: int,
    ty: int,
    x: int,
    y: int,
    i: int,
) -> int
    decreases i,
{
    if i <= 0 {
        0
    } else {
        let o = spec_selected_neighbor(tx, ty, x, y, i - 1);
        spec_add(
            spec_dens_sum(g, config, tx, ty, x, y, i - 1),
            spec_mul(
                config.neighbor_density_weights@[i - 1] as int,
                spec_pair_density_diff(g, config, tx, ty, o.0, o.1),
            ),
        )
    }
}

/// Chebyshev distance between two coordinates.
pub open spec fn spec_chebyshev(tx: int, ty: int, x: int, y: int) -> int {
    let dx = if x >= tx {
        x - tx
    } else {
        tx - x
    };
    let dy = if y >= ty {
        y - ty
    } else {
        ty - y
    };
    if dx >= dy {
        dx
    } else {
        dy
    }
}

/// The desirability of the tile at `(tx, ty)` occupying `(x, y)`: the
/// weighted attraction and density sums over the destination's eight
/// neighbors (self-substituted), combined by the two score weights,
/// minus a small distance penalty that favors staying put on ties.
pub open spec fn spec_position_score(
    g: Grid<Tile>,
    config: Config,
    tx: int,
    ty: int,
    x: int,
    y: int,
) -> int {
    spec_clamp(
        spec_add(
            spec_mul(
                config.attraction_score_weight as int,
                spec_att_sum(g, config, tx, ty, x, y, 8),
            ),
            spec_mul(
                config.density_score_weight as int,
                spec_dens_sum(g, config, tx, ty, x, y, 8),
            ),
        ) - spec_chebyshev(tx, ty, x, y),
    )
}

/// The i-th neighbor offset as executable values.
fn neighbor_offset(i: usize) -> (r: (isize, isize))
    requires
        i < 8,
    ensures
        (r.0 as int, r.1 as int) == spec_neighbor_offset(i as int),
{
    match i {
        0 => (-1, -1),
        1 => (0, -1),
        2 => (1, -1),
        3 => (-1, 0),
        4 => (1, 0),
        5 => (-1, 1),
        6 => (0, 1),
        _ => (1, 1),
    }
}

/// One stored bucket holds the pair scores of its decoded coordinates.
pub open spec fn pair_matches(
    v: (i64, i64),
    g: Grid<Tile>,
    config: Config,
    a: int,
    b: int,
    s: int,
) -> bool {
    &&& v.0 == spec_pair_attraction(g, config, a - 2, b - 2, a - 2 + slot_dx(s), b - 2 + slot_dy(s))
    &&& v.1 == spec_pair_density_diff(
        g,
        config,
        a - 2,
        b - 2,
        a - 2 + slot_dx(s),
        b - 2 + slot_dy(s),
    )
}

/// Cache of pairwise interaction scores over a padded copy of the grid.
pub struct PairwiseTileScorer {
    width: usize,
    height: usize,
    scores: Vec<(i64, i64)>,
    basis: Ghost<Grid<Tile>>,
    cfg: Ghost<Config>,
}

impl PairwiseTileScorer {
    /// The grid and config the cache was computed from.
    pub closed spec fn spec_basis(&self) -> Grid<Tile> {
        self.basis@
    }

    pub closed spec fn spec_cfg(&self) -> Config {
        self.cfg@
    }

    /// Every bucket holds the pair scores of its decoded coordinates.
    pub closed spec fn wf(&self) -> bool {
        &&& self.basis@.wf()
        &&& self.cfg@.wf()
        &&& crate::simulation::tiles_wf(self.basis@)
        &&& self.width == self.basis@.spec_width() + 4
        &&& self.height == self.basis@.spec_height() + 4
        &&& self.scores@.len() == self.width * self.height * BUCKET_SIZE
        &&& forall|a: int, b: int, s: int|
            0 <= a < self.width && 0 <= b < self.height && 0 <= s < BUCKET_SIZE
                ==> pair_matches(
                #[trigger] self.scores@[flat3(self.width as int, a, b, s)],
                self.basis@,
                self.cfg@,
                a,
                b,
                s,
            )
    }

    /// Precompute the pair scores of every position of the padded grid
    /// against the stored half of its window.
    pub fn new(state: &State) -> (r: PairwiseTileScorer)
        requires
            state.wf(),
        ensures
            r.wf(),
            r.spec_basis() == state.elements,
            r.spec_cfg() == state.config,
    {
        let elements = &state.elements;
        let config = &state.config;
        proof {
            state.elements.lemma_wf();
        }
        let w = crate::grid::GridLike::width(elements);
        let h = crate::grid::GridLike::height(elements);
        let pw: usize = w + 4;
        let ph: usize = h + 4;
        let ghost gw = pw as int;
        let mut scores: Vec<(i64, i64)> = Vec::new();
        let mut b: usize = 0;
        while b < ph
            invariant
                state.wf(),
                elements == state.elements,
                config == state.config,
                w == elements.spec_width(),
                h == elements.spec_height(),
                pw == w + 4,
                ph == h + 4,
                pw <= 4100,
                ph <= 4100,
                gw == pw as int,
                b <= ph,
                scores@.len() == b * pw * BUCKET_SIZE,
                forall|a2: int, b2: int, s2: int|
                    0 <= a2 < pw && 0 <= b2 < ph && 0 <= s2 < BUCKET_SIZE && flat3(gw, a2, b2, s2)
                        < scores@.len() ==> pair_matches(
                        #[trigger] scores@[flat3(gw, a2, b2, s2)],
                        *elements,
                        *config,
                        a2,
                        b2,
                        s2,
                    ),
            decreases ph - b,
        {
            let mut a: usize = 0;
            while a < pw
                invariant
                    state.wf(),
                    elements == state.elements,
                    config == state.config,
                    w == elements.spec_width(),
                    h == elements.spec_height(),
                    pw == w + 4,
                    ph == h + 4,
                    pw <= 4100,
                    ph <= 4100,
                    gw == pw as int,
                    b < ph,
                    a <= pw,
                    scores@.len() == (b * pw + a) * BUCKET_SIZE,
                    forall|a2: int, b2: int, s2: int|
                        0 <= a2 < pw && 0 <= b2 < ph && 0 <= s2 < BUCKET_SIZE && flat3(
                            gw,
                            a2,
                            b2,
                            s2,
                        ) < scores@.len() ==> pair_matches(
                        #[trigger] scores@[flat3(gw, a2, b2, s2)],
                        *elements,
                        *config,
                        a2,
                        b2,
                        s2,
                    ),
                decreases pw - a,
            {
                let mut s: usize = 0;
                while s < BUCKET_SIZE
                    invariant
                        state.wf(),
                        elements == state.elements,
                        config == state.config,
                        w == elements.spec_width(),
                        h == elements.spec_height(),
                        pw == w + 4,
                        ph == h + 4,
                        pw <= 4100,
                        ph <= 4100,
                        gw == pw as int,
                        b < ph,
                        a < pw,
                        s <= BUCKET_SIZE,
                        scores@.len() == (b * pw + a) * BUCKET_SIZE + s,
                        forall|a2: int, b2: int, s2: int|
                            0 <= a2 < pw && 0 <= b2 < ph && 0 <= s2 < BUCKET_SIZE && flat3(
                                gw,
                                a2,
                                b2,
                                s2,
                            ) < scores@.len() ==> pair_matches(
                        #[trigger] scores@[flat3(gw, a2, b2, s2)],
                        *elements,
                        *config,
                        a2,
                        b2,
                        s2,
                    ),
                    decreases BUCKET_SIZE - s,
                {
                    let (dx, dy): (isize, isize) = if s < 3 {
                        (s as isize, 0)
                    } else if s < 8 {
                        (s as isize - 5, 1)
                    } else {
                        (s as isize - 10, 2)
                    };
                    let tx: isize = a as isize - 2;
                    let ty: isize = b as isize - 2;
                    let pair = pair_scores(elements, config, tx, ty, tx + dx, ty + dy);
                    proof {
                        lemma_flat3_bounds(gw, ph as int, a as int, b as int, s as int);
                        assert forall|a2: int, b2: int, s2: int|
                            0 <= a2 < pw && 0 <= b2 < ph && 0 <= s2 < BUCKET_SIZE && flat3(
                                gw,
                                a2,
                                b2,
                                s2,
                            ) == scores@.len() implies a2 == a as int && b2 == b as int && s2
                            == s as int by {
                            lemma_flat3_injective(
                                gw,
                                ph as int,
                                a2,
                                b2,
                                s2,
                                a as int,
                                b as int,
                                s as int,
                            );
                        }
                    }
                    scores.push(pair);
                    s += 1;
                }
                a += 1;
                proof {
                    assert((b * pw + a) * 13 == (b * pw + (a - 1)) * 13 + 13) by (nonlinear_arith);
                }
            }
            b += 1;
            proof {
                assert(b * pw * 13 == ((b - 1) * pw + pw) * 13) by (nonlinear_arith);
            }
        }
        proof {
            assert(ph * pw * 13 == pw * ph * 13) by (nonlinear_arith);
            assert forall|a2: int, b2: int, s2: int|
                0 <= a2 < pw && 0 <= b2 < ph && 0 <= s2 < BUCKET_SIZE implies flat3(gw, a2, b2, s2)
                < scores@.len() by {
                lemma_flat3_bounds(gw, ph as int, a2, b2, s2);
            }
        }
        PairwiseTileScorer {
            width: pw,
            height: ph,
            scores,
            basis: Ghost(state.elements),
            cfg: Ghost(state.config),
        }
    }

    /// Look up the pair scores of `t` against `other`, mirroring into
    /// the stored half of the window when needed.
    fn get(&self, t: (isize, isize), other: (isize, isize)) -> (r: (i64, i64))
        requires
            self.wf(),
            -2 <= t.0 < self.spec_basis().spec_width() + 2,
            -2 <= t.1 < self.spec_basis().spec_height() + 2,
            -2 <= other.0 < self.spec_basis().spec_width() + 2,
            -2 <= other.1 < self.spec_basis().spec_height() + 2,
            -2 <= other.0 - t.0 <= 2,
            -2 <= other.1 - t.1 <= 2,
        ensures
            r.0 == spec_pair_attraction(
                self.spec_basis(),
                self.spec_cfg(),
                t.0 as int,
                t.1 as int,
                other.0 as int,
                other.1 as int,
            ),
            r.1 == spec_pair_density_diff(
                self.spec_basis(),
                self.spec_cfg(),
                t.0 as int,
                t.1 as int,
                other.0 as int,
                other.1 as int,
            ),
            in_bounds(r.0 as int),
            in_bounds(r.1 as int),
    {
        let dx = other.0 - t.0;
        let dy = other.1 - t.1;
        let r = if dy > 0 || (dy >= 0 && dx >= 0) {
            self.lookup(t.0, t.1, dx, dy)
        } else {
            let (a, d) = self.lookup(other.0, other.1, -dx, -dy);
            proof {
                lemma_pair_in_bounds(
                    self.spec_basis(),
                    self.spec_cfg(),
                    other.0 as int,
                    other.1 as int,
                    t.0 as int,
                    t.1 as int,
                );
                lemma_pair_symmetry(
                    self.spec_basis(),
                    self.spec_cfg(),
                    t.0 as int,
                    t.1 as int,
                    other.0 as int,
                    other.1 as int,
                );
            }
            (a, -d)
        };
        proof {
            lemma_pair_in_bounds(
                self.spec_basis(),
                self.spec_cfg(),
                t.0 as int,
                t.1 as int,
                other.0 as int,
                other.1 as int,
            );
        }
        r
    }

    /// Read one stored bucket.
    fn lookup(&self, tx: isize, ty: isize, dx: isize, dy: isize) -> (r: (i64, i64))
        requires
            self.wf(),
            -2 <= tx < self.spec_basis().spec_width() + 2,
            -2 <= ty < self.spec_basis().spec_height() + 2,
            stored_offset(dx as int, dy as int),
        ensures
            r.0 == spec_pair_attraction(
                self.spec_basis(),
                self.spec_cfg(),
                tx as int,
                ty as int,
                tx + dx,
                ty + dy,
            ),
            r.1 == spec_pair_density_diff(
                self.spec_basis(),
                self.spec_cfg(),
                tx as int,
                ty as int,
                tx + dx,
                ty + dy,
            ),
    {
        proof {
            self.basis@.lemma_wf();
            lemma_slot(dx as int, dy as int);
            lemma_flat3_bounds(
                self.width as int,
                self.height as int,
                tx + 2,
                ty + 2,
                slot_of(dx as int, dy as int),
            );
        }
        let a: usize = (tx + 2) as usize;
        let b: usize = (ty + 2) as usize;
        let s: usize = (dy * WINDOW_SIZE + dx) as usize;
        let idx: usize = (b * self.width + a) * BUCKET_SIZE + s;
        let pair = self.scores[idx];
        pair
    }

    /// Extent of the underlying grid.
    pub fn basis_width(&self) -> (r: usize)
        requires
            self.wf(),
        ensures
            r == self.spec_basis().spec_width(),
    {
        proof {
            self.basis@.lemma_wf();
        }
        self.width - 4
    }

    pub fn basis_height(&self) -> (r: usize)
        requires
            self.wf(),
        ensures
            r == self.spec_basis().spec_height(),
    {
        proof {
            self.basis@.lemma_wf();
        }
        self.height - 4
    }

    /// The desirability of the tile at `(tx, ty)` moving to occupy the
    /// in-bounds destination `(x, y)` at most one cell away.
    pub fn position_score(&self, config: &Config, tx: isize, ty: isize, x: isize, y: isize) -> (r:
        i64)
        requires
            self.wf(),
            *config == self.spec_cfg(),
            self.spec_basis().spec_contains(tx as int, ty as int),
            self.spec_basis().spec_contains(x as int, y as int),
            spec_chebyshev(tx as int, ty as int, x as int, y as int) <= 1,
        ensures
            r == spec_position_score(
                self.spec_basis(),
                self.spec_cfg(),
                tx as int,
                ty as int,
                x as int,
                y as int,
            ),
            in_bounds(r as int),
    {
        proof {
            self.basis@.lemma_wf();
        }
        let mut att: i64 = 0;
        let mut dens: i64 = 0;
        let mut i: usize = 0;
        while i < 8
            invariant
                self.wf(),
                *config == self.spec_cfg(),
                self.spec_basis().spec_contains(tx as int, ty as int),
                self.spec_basis().spec_contains(x as int, y as int),
                spec_chebyshev(tx as int, ty as int, x as int, y as int) <= 1,
                self.spec_basis().spec_width() <= crate::grid::MAX_EXTENT,
                self.spec_basis().spec_height() <= crate::grid::MAX_EXTENT,
                i <= 8,
                in_bounds(att as int),
                in_bounds(dens as int),
                att == spec_att_sum(
                    self.spec_basis(),
                    self.spec_cfg(),
                    tx as int,
                    ty as int,
                    x as int,
                    y as int,
                    i as int,
                ),
                dens == spec_dens_sum(
                    self.spec_basis(),
                    self.spec_cfg(),
                    tx as int,
                    ty as int,
                    x as int,
                    y as int,
                    i as int,
                ),
            decreases 8 - i,
        {
            let off = neighbor_offset(i);
            let mut ox: isize = x + off.0;
            let mut oy: isize = y + off.1;
            if ox == tx && oy == ty {
                ox = x;
                oy = y;
            }
            let pair = self.get((tx, ty), (ox, oy));
            let aw = config.neighbor_attraction_weights[i];
            let dw = config.neighbor_density_weights[i];
            att = add_fp(att, mul_fp(aw, pair.0));
            dens = add_fp(dens, mul_fp(dw, pair.1));
            i += 1;
        }
        let base = add_fp(
            mul_fp(config.attraction_score_weight, att),
            mul_fp(config.density_score_weight, dens),
        );
        let dxa: isize = if x >= tx {
            x - tx
        } else {
            tx - x
        };
        let dya: isize = if y >= ty {
            y - ty
        } else {
            ty - y
        };
        let dist: isize = if dxa >= dya {
            dxa
        } else {
            dya
        };
        clamp_scalar(base - dist as i64)
    }
}

/// Pair scores are always clamped scalars.
proof fn lemma_pair_in_bounds(g: Grid<Tile>, config: Config, tx: int, ty: int, ox: int, oy: int)
    ensures
        in_bounds(spec_pair_attraction(g, config, tx, ty, ox, oy)),
        in_bounds(spec_pair_density_diff(g, config, tx, ty, ox, oy)),
        spec_pair_density_diff(g, config, tx, ty, ox, oy) > i64::MIN,
{
}

/// Compute the pair scores of two coordinates directly from the grid.
fn pair_scores(elements: &Grid<Tile>, config: &Config, tx: isize, ty: isize, ox: isize, oy: isize)
    -> (r: (i64, i64))
    requires
        elements.wf(),
        config.wf(),
        crate::simulation::tiles_wf(*elements),
    ensures
        r.0 == spec_pair_attraction(*elements, *config, tx as int, ty as int, ox as int, oy as int),
        r.1 == spec_pair_density_diff(
            *elements,
            *config,
            tx as int,
            ty as int,
            ox as int,
            oy as int,
        ),
{
    let t = crate::grid::GridLike::get(elements, tx, ty);
    let o = crate::grid::GridLike::get(elements, ox, oy);
    proof {
        if elements.spec_contains(tx as int, ty as int) {
            crate::simulation::lemma_tile_wf(*elements, tx as int, ty as int);
        }
        if elements.spec_contains(ox as int, oy as int) {
            crate::simulation::lemma_tile_wf(*elements, ox as int, oy as int);
        }
    }
    match (t, o) {
        (None, None) => (0, 0),
        (Some(t), None) => {
            let adh = t.adhesion(config);
            (mul_fp(adh, adh), 0)
        },
        (None, Some(o)) => {
            let adh = o.adhesion(config);
            (mul_fp(adh, adh), 0)
        },
        (Some(t), Some(o)) => {
            let att = t.attractive_force(o, config);
            let td = t.density(config);
            let od = o.density(config);
            let dd = if od + td > 0 {
                div_fp(od - td, od + td)
            } else {
                0
            };
            (att, dd)
        },
    }
}

/// The deterministic preference order on candidate destinations for the
/// source `(sx, sy)`: higher position score first; equal scores are
/// ordered by lowest `(y, x)`.  Reflexive in the tie case, so any two
/// candidates are comparable.
pub open spec fn spec_pref_before(
    g: Grid<Tile>,
    config: Config,
    sx: int,
    sy: int,
    a: (isize, isize),
    b: (isize, isize),
) -> bool {
    let sa = spec_position_score(g, config, sx, sy, a.0 as int, a.1 as int);
    let sb = spec_position_score(g, config, sx, sy, b.0 as int, b.1 as int);
    ||| sa > sb
    ||| (sa == sb && (a.1 < b.1 || (a.1 == b.1 && a.0 <= b.0)))
}

/// Whether `a` comes no later than `b` in the preference order.
fn pref_before(
    scorer: &PairwiseTileScorer,
    config: &Config,
    sx: isize,
    sy: isize,
    a: (isize, isize),
    b: (isize, isize),
) -> (r: bool)
    requires
        scorer.wf(),
        *config == scorer.spec_cfg(),
        scorer.spec_basis().spec_contains(sx as int, sy as int),
        scorer.spec_basis().spec_contains(a.0 as int, a.1 as int),
        scorer.spec_basis().spec_contains(b.0 as int, b.1 as int),
        spec_chebyshev(sx as int, sy as int, a.0 as int, a.1 as int) <= 1,
        spec_chebyshev(sx as int, sy as int, b.0 as int, b.1 as int) <= 1,
    ensures
        r == spec_pref_before(
            scorer.spec_basis(),
            scorer.spec_cfg(),
            sx as int,
            sy as int,
            a,
            b,
        ),
{
    let sa = scorer.position_score(config, sx, sy, a.0, a.1);
    let sb = scorer.position_score(config, sx, sy, b.0, b.1);
    sa > sb || (sa == sb && (a.1 < b.1 || (a.1 == b.1 && a.0 <= b.0)))
}

/// A fully ranked preference list for the source at `(x, y)`: the
/// in-bounds cells of its three-by-three neighborhood (itself
/// included), each exactly once, most preferred first, ties to the
/// lowest `(y, x)`.  These clauses determine the sequence uniquely.
pub open spec fn ranked_prefs_ok(
    g: Grid<Tile>,
    config: Config,
    prefs: Seq<(isize, isize)>,
    x: int,
    y: int,
) -> bool {
    &&& prefs.len() <= 9
    &&& forall|i: int|
        0 <= i < prefs.len() ==> {
            let d = #[trigger] prefs[i];
            &&& g.spec_contains(d.0 as int, d.1 as int)
            &&& spec_chebyshev(x, y, d.0 as int, d.1 as int) <= 1
        }
    &&& forall|i: int, j: int|
        0 <= i < j < prefs.len() ==> #[trigger] prefs[i] != #[trigger] prefs[j]
    &&& forall|i: int, j: int|
        0 <= i < j < prefs.len() ==> spec_pref_before(
            g,
            config,
            x,
            y,
            #[trigger] prefs[i],
            #[trigger] prefs[j],
        )
    &&& forall|d: (isize, isize)|
        g.spec_contains(d.0 as int, d.1 as int) && spec_chebyshev(x, y, d.0 as int, d.1 as int)
            <= 1 ==> #[trigger] prefs.contains(d)
}

/// A fresh ranked per-cell preference list: valid content with the
/// cursor still at the front.
pub open spec fn ranked_cell_ok(
    g: Grid<Tile>,
    config: Config,
    p: PotentialMoves,
    x: int,
    y: int,
) -> bool {
    &&& p.wf()
    &&& p.spec_current() == 0
    &&& ranked_prefs_ok(g, config, p.spec_prefs(), x, y)
}

/// The ranked candidate destinations of the source at `(x, y)`.
fn ranked_moves_for(scorer: &PairwiseTileScorer, config: &Config, x: usize, y: usize) -> (p:
    PotentialMoves)
    requires
        scorer.wf(),
        *config == scorer.spec_cfg(),
        scorer.spec_basis().spec_contains(x as int, y as int),
    ensures
        ranked_cell_ok(scorer.spec_basis(), scorer.spec_cfg(), p, x as int, y as int),
{
    let ghost basis = scorer.spec_basis();
    let ghost cfg = scorer.spec_cfg();
    proof {
        scorer.spec_basis().lemma_wf();
    }
    let mut cands: Vec<(isize, isize)> = Vec::new();
    let mut oi: usize = 0;
    while oi < 9
        invariant
            scorer.wf(),
            basis == scorer.spec_basis(),
            basis.spec_contains(x as int, y as int),
            0 <= basis.spec_width() <= crate::grid::MAX_EXTENT,
            0 <= basis.spec_height() <= crate::grid::MAX_EXTENT,
            oi <= 9,
            cands@.len() <= oi,
            forall|i: int|
                0 <= i < cands@.len() ==> {
                    let d = #[trigger] cands@[i];
                    &&& basis.spec_contains(d.0 as int, d.1 as int)
                    &&& spec_chebyshev(x as int, y as int, d.0 as int, d.1 as int) <= 1
                },
            forall|i: int, j: int|
                0 <= i < j < cands@.len() ==> #[trigger] cands@[i] != #[trigger] cands@[j],
            forall|i: int|
                0 <= i < cands@.len() ==> 0 <= 3 * ((#[trigger] cands@[i]).1 - y + 1) + (
                cands@[i].0 - x + 1) < oi,
            forall|ddx: int, ddy: int|
                -1 <= ddx <= 1 && -1 <= ddy <= 1 && 3 * (ddy + 1) + (ddx + 1) < oi
                    && basis.spec_contains(x + ddx, y + ddy) ==> #[trigger] cands@.contains(
                    (((x + ddx) as isize, (y + ddy) as isize)),
                ),
        decreases 9 - oi,
    {
        let ddx: isize = (oi % 3) as isize - 1;
        let ddy: isize = (oi / 3) as isize - 1;
        let cx: isize = x as isize + ddx;
        let cy: isize = y as isize + ddy;
        let ghost cpre = cands@;
        let in_x = cx >= 0 && cx < scorer.basis_width() as isize;
        let in_y = cy >= 0 && cy < scorer.basis_height() as isize;
        if in_x && in_y {
            cands.push((cx, cy));
            proof {
                assert(cands@.last() == ((cx, cy)));
                assert(3 * (cy - y + 1) + (cx - x + 1) == oi as int);
                assert forall|i: int, j: int|
                    0 <= i < j < cands@.len() implies #[trigger] cands@[i]
                    != #[trigger] cands@[j] by {
                    if j == cands@.len() - 1 {
                        assert(cands@[i] == cpre[i]);
                        assert(3 * (cands@[i].1 - y + 1) + (cands@[i].0 - x + 1) < oi as int);
                    }
                }
            }
        }
        proof {
            assert forall|ddx2: int, ddy2: int|
                -1 <= ddx2 <= 1 && -1 <= ddy2 <= 1 && 3 * (ddy2 + 1) + (ddx2 + 1) < oi + 1
                    && basis.spec_contains(x + ddx2, y + ddy2) implies #[trigger] cands@.contains(
                (((x + ddx2) as isize, (y + ddy2) as isize)),
            ) by {
                if 3 * (ddy2 + 1) + (ddx2 + 1) == oi as int {
                    assert(ddx2 == ddx as int && ddy2 == ddy as int);
                    assert(cands@.contains(((cx, cy))));
                } else {
                    assert(cpre.contains((((x + ddx2) as isize, (y + ddy2) as isize))));
                    let j0 = choose|j0: int|
                        0 <= j0 < cpre.len() && cpre[j0] == (((x + ddx2) as isize, (y
                            + ddy2) as isize));
                    assert(cands@[j0] == cpre[j0]);
                    assert(cands@.contains((((x + ddx2) as isize, (y + ddy2) as isize))));
                }
            }
        }
        oi += 1;
    }
    let ghost cands_view = cands@;
    let sorted = sort_by_preference(scorer, config, x as isize, y as isize, cands);
    proof {
        assert forall|d: (isize, isize)|
            basis.spec_contains(d.0 as int, d.1 as int) && spec_chebyshev(
                x as int,
                y as int,
                d.0 as int,
                d.1 as int,
            ) <= 1 implies #[trigger] sorted@.contains(d) by {
            let ddx2 = d.0 - x as int;
            let ddy2 = d.1 - y as int;
            assert(-1 <= ddx2 <= 1 && -1 <= ddy2 <= 1);
            assert(cands_view.contains((((x + ddx2) as isize, (y + ddy2) as isize))));
            assert((((x + ddx2) as isize, (y + ddy2) as isize)) == d);
        }
    }
    PotentialMoves::new(sorted)
}

/// Selection sort by the preference order; the earliest maximum is
/// taken first, so equal scores keep their row-major order.
#[verifier::rlimit(50)]
fn sort_by_preference(
    scorer: &PairwiseTileScorer,
    config: &Config,
    sx: isize,
    sy: isize,
    cands: Vec<(isize, isize)>,
) -> (out: Vec<(isize, isize)>)
    requires
        scorer.wf(),
        *config == scorer.spec_cfg(),
        scorer.spec_basis().spec_contains(sx as int, sy as int),
        forall|i: int|
            0 <= i < cands@.len() ==> {
                let d = #[trigger] cands@[i];
                &&& scorer.spec_basis().spec_contains(d.0 as int, d.1 as int)
                &&& spec_chebyshev(sx as int, sy as int, d.0 as int, d.1 as int) <= 1
            },
        forall|i: int, j: int|
            0 <= i < j < cands@.len() ==> #[trigger] cands@[i] != #[trigger] cands@[j],
    ensures
        out@.len() == cands@.len(),
        forall|i: int|
            0 <= i < out@.len() ==> {
                let d = #[trigger] out@[i];
                &&& scorer.spec_basis().spec_contains(d.0 as int, d.1 as int)
                &&& spec_chebyshev(sx as int, sy as int, d.0 as int, d.1 as int) <= 1
            },
        forall|i: int, j: int|
            0 <= i < j < out@.len() ==> #[trigger] out@[i] != #[trigger] out@[j],
        forall|i: int, j: int|
            0 <= i < j < out@.len() ==> spec_pref_before(
                scorer.spec_basis(),
                scorer.spec_cfg(),
                sx as int,
                sy as int,
                #[trigger] out@[i],
                #[trigger] out@[j],
            ),
        forall|d: (isize, isize)| cands@.contains(d) ==> #[trigger] out@.contains(d),
{
    let ghost basis = scorer.spec_basis();
    let ghost cfg = scorer.spec_cfg();
    let ghost orig = cands@;
    let mut remaining = cands;
    let mut out: Vec<(isize, isize)> = Vec::new();
    while remaining.len() > 0
        invariant
            scorer.wf(),
            *config == scorer.spec_cfg(),
            basis == scorer.spec_basis(),
            cfg == scorer.spec_cfg(),
            basis.spec_contains(sx as int, sy as int),
            out@.len() + remaining@.len() == orig.len(),
            forall|i: int|
                0 <= i < remaining@.len() ==> {
                    let d = #[trigger] remaining@[i];
                    &&& basis.spec_contains(d.0 as int, d.1 as int)
                    &&& spec_chebyshev(sx as int, sy as int, d.0 as int, d.1 as int) <= 1
                },
            forall|i: int|
                0 <= i < out@.len() ==> {
                    let d = #[trigger] out@[i];
                    &&& basis.spec_contains(d.0 as int, d.1 as int)
                    &&& spec_chebyshev(sx as int, sy as int, d.0 as int, d.1 as int) <= 1
                },
            forall|i: int, j: int|
                0 <= i < j < remaining@.len() ==> #[trigger] remaining@[i]
                    != #[trigger] remaining@[j],
            forall|i: int, j: int|
                0 <= i < j < out@.len() ==> #[trigger] out@[i] != #[trigger] out@[j],
            forall|i: int, j: int|
                0 <= i < out@.len() && 0 <= j < remaining@.len() ==> #[trigger] out@[i]
                    != #[trigger] remaining@[j],
            forall|i: int, j: int|
                0 <= i < j < out@.len() ==> spec_pref_before(
                    basis,
                    cfg,
                    sx as int,
                    sy as int,
                    #[trigger] out@[i],
                    #[trigger] out@[j],
                ),
            forall|i: int, j: int|
                0 <= i < out@.len() && 0 <= j < remaining@.len() ==> spec_pref_before(
                    basis,
                    cfg,
                    sx as int,
                    sy as int,
                    #[trigger] out@[i],
                    #[trigger] remaining@[j],
                ),
            forall|d: (isize, isize)|
                #[trigger] orig.contains(d) ==> out@.contains(d) || remaining@.contains(d),
        decreases remaining@.len(),
    {
        let mut bi: usize = 0;
        let mut j: usize = 1;
        while j < remaining.len()
            invariant
                scorer.wf(),
                *config == scorer.spec_cfg(),
                basis == scorer.spec_basis(),
                cfg == scorer.spec_cfg(),
                basis.spec_contains(sx as int, sy as int),
                remaining@.len() >= 1,
                forall|i: int|
                    0 <= i < remaining@.len() ==> {
                        let d = #[trigger] remaining@[i];
                        &&& basis.spec_contains(d.0 as int, d.1 as int)
                        &&& spec_chebyshev(sx as int, sy as int, d.0 as int, d.1 as int) <= 1
                    },
                1 <= j <= remaining@.len(),
                bi < j,
                forall|j2: int|
                    0 <= j2 < j ==> spec_pref_before(
                        basis,
                        cfg,
                        sx as int,
                        sy as int,
                        remaining@[bi as int],
                        #[trigger] remaining@[j2],
                    ),
            decreases remaining@.len() - j,
        {
            let rb = remaining[bi];
            let rj = remaining[j];
            if !pref_before(scorer, config, sx, sy, rb, rj) {
                proof {
                    lemma_pref_total(basis, cfg, sx as int, sy as int, rb, rj);
                    assert forall|j2: int|
                        0 <= j2 < j + 1 implies spec_pref_before(
                        basis,
                        cfg,
                        sx as int,
                        sy as int,
                        remaining@[j as int],
                        #[trigger] remaining@[j2],
                    ) by {
                        if j2 < j {
                            lemma_pref_trans(
                                basis,
                                cfg,
                                sx as int,
                                sy as int,
                                remaining@[j as int],
                                remaining@[bi as int],
                                remaining@[j2],
                            );
                        } else {
                            lemma_pref_refl(basis, cfg, sx as int, sy as int, remaining@[j as int]);
                        }
                    }
                }
                bi = j;
            } else {
                proof {
                    lemma_pref_refl(basis, cfg, sx as int, sy as int, remaining@[j as int]);
                }
            }
            j += 1;
        }
        let ghost rpre = remaining@;
        let ghost outpre = out@;
        let v = remaining.remove(bi);
        out.push(v);
        proof {
            rpre.remove_ensures(bi as int);
            assert(out@.last() == v);
            assert forall|d: (isize, isize)| #[trigger] orig.contains(d) implies out@.contains(d)
                || remaining@.contains(d) by {
                if !out@.contains(d) {
                    assert(!outpre.contains(d)) by {
                        if outpre.contains(d) {
                            let k0 = choose|k0: int| 0 <= k0 < outpre.len() && outpre[k0] == d;
                            assert(out@[k0] == outpre[k0]);
                            assert(out@.contains(d));
                        }
                    }
                    assert(rpre.contains(d));
                    let j0 = choose|j0: int| 0 <= j0 < rpre.len() && rpre[j0] == d;
                    assert(rpre[j0] != v) by {
                        assert(out@.contains(v));
                    }
                    if j0 < bi {
                        assert(remaining@[j0] == rpre[j0]);
                        assert(remaining@.contains(d));
                    } else {
                        assert(remaining@[j0 - 1] == rpre[j0]);
                        assert(remaining@.contains(d));
                    }
                }
            }
        }
    }
    out
}

/// Any two candidates are comparable in the preference order.
proof fn lemma_pref_total(
    g: Grid<Tile>,
    config: Config,
    sx: int,
    sy: int,
    a: (isize, isize),
    b: (isize, isize),
)
    ensures
        spec_pref_before(g, config, sx, sy, a, b) || spec_pref_before(g, config, sx, sy, b, a),
{
}

/// The preference order is reflexive.
proof fn lemma_pref_refl(g: Grid<Tile>, config: Config, sx: int, sy: int, a: (isize, isize))
    ensures
        spec_pref_before(g, config, sx, sy, a, a),
{
}

/// The preference order is transitive.
proof fn lemma_pref_trans(
    g: Grid<Tile>,
    config: Config,
    sx: int,
    sy: int,
    a: (isize, isize),
    b: (isize, isize),
    c: (isize, isize),
)
    requires
        spec_pref_before(g, config, sx, sy, a, b),
        spec_pref_before(g, config, sx, sy, b, c),
    ensures
        spec_pref_before(g, config, sx, sy, a, c),
{
}

/// Ranked movement preferences for every cell of the grid the scorer
/// was built from.
pub fn ranked_potential_moves(scorer: &PairwiseTileScorer, config: &Config) -> (r: Grid<
    PotentialMoves,
>)
    requires
        scorer.wf(),
        *config == scorer.spec_cfg(),
    ensures
        r.wf(),
        r.spec_width() == scorer.spec_basis().spec_width(),
        r.spec_height() == scorer.spec_basis().spec_height(),
        crate::simulation::conflict::moves_wf(r),
        forall|x: int, y: int|
            0 <= x < r.spec_width() && 0 <= y < r.spec_height() ==> ranked_cell_ok(
                scorer.spec_basis(),
                scorer.spec_cfg(),
                #[trigger] r.spec_cell(x, y),
                x,
                y,
            ),
        forall|k: int|
            0 <= k < r.spec_cells().len() ==> (#[trigger] r.spec_cells()[k]).spec_remaining()
                <= 9,
{
    let ghost basis = scorer.spec_basis();
    let ghost cfg = scorer.spec_cfg();
    let ghost gw = basis.spec_width();
    let ghost gh = basis.spec_height();
    proof {
        basis.lemma_wf();
    }
    let w = scorer.basis_width();
    let h = scorer.basis_height();
    let mut cells: Vec<PotentialMoves> = Vec::new();
    let mut y: usize = 0;
    while y < h
        invariant
            scorer.wf(),
            *config == scorer.spec_cfg(),
            basis == scorer.spec_basis(),
            cfg == scorer.spec_cfg(),
            gw == basis.spec_width(),
            gh == basis.spec_height(),
            0 <= gw <= crate::grid::MAX_EXTENT,
            0 <= gh <= crate::grid::MAX_EXTENT,
            w == gw,
            h == gh,
            y <= h,
            cells@.len() == y * w,
            forall|k: int|
                0 <= k < cells@.len() ==> ranked_cell_ok(
                    basis,
                    cfg,
                    #[trigger] cells@[k],
                    k % gw,
                    k / gw,
                ),
        decreases gh - y,
    {
        let mut x: usize = 0;
        while x < w
            invariant
                scorer.wf(),
                *config == scorer.spec_cfg(),
                basis == scorer.spec_basis(),
                cfg == scorer.spec_cfg(),
                gw == basis.spec_width(),
                gh == basis.spec_height(),
                0 <= gw <= crate::grid::MAX_EXTENT,
                0 <= gh <= crate::grid::MAX_EXTENT,
                w == gw,
                h == gh,
                y < h,
                x <= w,
                cells@.len() == y * w + x,
                forall|k: int|
                    0 <= k < cells@.len() ==> ranked_cell_ok(
                        basis,
                        cfg,
                        #[trigger] cells@[k],
                        k % gw,
                        k / gw,
                    ),
            decreases gw - x,
        {
            let p = ranked_moves_for(scorer, config, x, y);
            proof {
                crate::grid::lemma_rm_index(gw, gh, x as int, y as int);
            }
            cells.push(p);
            x += 1;
        }
        y += 1;
        proof {
            assert(y * w == (y - 1) * w + w) by (nonlinear_arith);
        }
    }
    proof {
        assert(gh * gw == gw * gh) by (nonlinear_arith);
    }
    let r = Grid::from_cells(w, h, cells);
    proof {
        assert forall|x: int, y: int| 0 <= x < gw && 0 <= y < gh implies ranked_cell_ok(
            basis,
            cfg,
            #[trigger] r.spec_cell(x, y),
            x,
            y,
        ) by {
            crate::grid::lemma_rm_index(gw, gh, x, y);
        }
        assert forall|k: int|
            0 <= k < r.spec_cells().len() implies #[trigger] crate::simulation::conflict::pm_entry_wf(
            r,
            k,
        ) by {
            assert(0 < gw) by (nonlinear_arith)
                requires
                    0 <= gw,
                    0 <= gh,
                    0 < gw * gh == r.spec_cells().len() || r.spec_cells().len() == 0,
                    0 <= k < r.spec_cells().len(),
            ;
            vstd::arithmetic::div_mod::lemma_fundamental_div_mod(k, gw);
            vstd::arithmetic::div_mod::lemma_mod_bound(k, gw);
            let cx = k % gw;
            let cy = k / gw;
            assert(0 <= cy < gh) by (nonlinear_arith)
                requires
                    k == cy * gw + cx,
                    0 <= cx < gw,
                    0 <= k < gw * gh,
                    0 < gw,
            ;
            crate::grid::lemma_rm_index(gw, gh, cx, cy);
            assert(ranked_cell_ok(basis, cfg, r.spec_cells()[k], cx, cy));
        }
        assert forall|k: int|
            0 <= k < r.spec_cells().len() implies (#[trigger] r.spec_cells()[k]).spec_remaining()
            <= 9 by {
            assert(ranked_cell_ok(basis, cfg, r.spec_cells()[k], k % gw, k / gw));
        }
    }
    r
}

} // verus!
