//! The simulation core: material model and the per-tick state machine.
//!
//! A tick generates ranked movement preferences for every cell, resolves
//! them into a grid-wide permutation, rebuilds the grid by that
//! permutation, diffuses saturation toward the local window average, and
//! finally re-evaluates each cell's element from its new saturation.

pub mod config;
pub mod conflict;
pub mod score;

use vstd::prelude::*;

use crate::grid::{lemma_rm_index, Grid, GridLike};
use crate::polynomial::Polynomial;
use crate::rng::{fresh_rng, next_below};
use crate::scalar::{in_bounds, mul_fp, spec_mul, SCALE};
use crate::simulation::config::Config;
use crate::simulation::conflict::{appears, head_of, reduce_potential_moves, PotentialMoves};
use crate::simulation::score::{ranked_potential_moves, ranked_prefs_ok, PairwiseTileScorer};

verus! {

/// The material kind of a tile: a closed three-element model.
#[derive(Debug, Clone, Copy, PartialEq, Eq, Structural, Hash)]
pub enum Element {
    Air,
    Soil,
    Water,
}

/// Movement-relevant classification derived from element and saturation.
#[derive(Debug, Clone, Copy, PartialEq, Eq, Structural, Hash)]
pub enum Phase {
    Gas,
    Liquid,
    Solid,
}

/// One grid cell's contents: an element plus a saturation in `[0, 1]`.
#[derive(Debug, Clone, Copy, PartialEq, Eq, Structural, Hash)]
pub struct Tile {
    pub element: Element,
    pub saturation: i64,
}

/// The curve bundle the config assigns to an element.
pub open spec fn spec_element_config(
    config: Config,
    e: Element,
) -> crate::simulation::config::ElementConfig {
    match e {
        Element::Air => config.air,
        Element::Soil => config.soil,
        Element::Water => config.water,
    }
}

/// A tile's density: its element's density curve at its saturation.
pub open spec fn spec_density(t: Tile, config: Config) -> int {
    crate::polynomial::spec_eval(
        spec_element_config(config, t.spec_element()).density.spec_coeffs(),
        t.spec_saturation() as int,
    )
}

/// A tile's cohesion: its element's cohesion curve at its saturation.
pub open spec fn spec_cohesion(t: Tile, config: Config) -> int {
    crate::polynomial::spec_eval(
        spec_element_config(config, t.spec_element()).cohesion.spec_coeffs(),
        t.spec_saturation() as int,
    )
}

/// A tile's adhesion: its element's adhesion curve at its saturation.
pub open spec fn spec_adhesion(t: Tile, config: Config) -> int {
    crate::polynomial::spec_eval(
        spec_element_config(config, t.spec_element()).adhesion.spec_coeffs(),
        t.spec_saturation() as int,
    )
}

/// The attraction between two tiles: cohesion times cohesion for like
/// elements, adhesion times adhesion for unlike ones.  Commutative.
pub open spec fn spec_attractive_force(a: Tile, b: Tile, config: Config) -> int {
    if a.spec_element() == b.spec_element() {
        spec_mul(spec_cohesion(a, config), spec_cohesion(b, config))
    } else {
        spec_mul(spec_adhesion(a, config), spec_adhesion(b, config))
    }
}

/// The phase a tile moves as: air is a gas, water a liquid, and soil a
/// solid until its saturation exceeds the configured threshold.
pub open spec fn spec_phase(t: Tile, config: Config) -> Phase {
    match t.spec_element() {
        Element::Air => Phase::Gas,
        Element::Water => Phase::Liquid,
        Element::Soil => if t.spec_saturation() > config.soil_liquid_saturation_threshold {
            Phase::Liquid
        } else {
            Phase::Solid
        },
    }
}

/// The element after one phase-transition step: air becomes water at or
/// above the air-to-water threshold, water becomes air strictly below
/// the water-to-air threshold, and soil never changes from saturation.
pub open spec fn spec_transition(t: Tile, config: Config) -> Tile {
    match t.spec_element() {
        Element::Air => if t.spec_saturation() >= config.air_to_water_saturation_threshold {
            Tile { element: Element::Water, saturation: t.saturation }
        } else {
            t
        },
        Element::Water => if t.spec_saturation() < config.water_to_air_saturation_threshold {
            Tile { element: Element::Air, saturation: t.saturation }
        } else {
            t
        },
        Element::Soil => t,
    }
}

impl Tile {
    /// Saturation lies in `[0, SCALE]`.
    pub open spec fn wf(&self) -> bool {
        0 <= self.saturation <= SCALE
    }

    pub open spec fn spec_element(&self) -> Element {
        self.element
    }

    pub open spec fn spec_saturation(&self) -> i64 {
        self.saturation
    }

    /// Build a tile, clamping saturation into `[0, SCALE]`.
    pub fn new(element: Element, saturation: i64) -> (r: Tile)
        ensures
            r.wf(),
            r.spec_element() == element,
            r.spec_saturation() == if saturation < 0 {
                0i64
            } else if saturation > SCALE {
                SCALE
            } else {
                saturation
            },
    {
        let s = if saturation < 0 {
            0
        } else if saturation > SCALE {
            SCALE
        } else {
            saturation
        };
        Tile { element, saturation: s }
    }

    pub fn element(&self) -> (r: Element)
        ensures
            r == self.spec_element(),
    {
        self.element
    }

    pub fn saturation(&self) -> (r: i64)
        ensures
            r == self.spec_saturation(),
    {
        self.saturation
    }

    pub fn density(&self, config: &Config) -> (r: i64)
        requires
            self.wf(),
            config.wf(),
        ensures
            r == spec_density(*self, *config),
            in_bounds(r as int),
    {
        let curve: &Polynomial = match self.element {
            Element::Air => &config.air.density,
            Element::Soil => &config.soil.density,
            Element::Water => &config.water.density,
        };
        curve.eval(self.saturation)
    }

    pub fn cohesion(&self, config: &Config) -> (r: i64)
        requires
            self.wf(),
            config.wf(),
        ensures
            r == spec_cohesion(*self, *config),
            in_bounds(r as int),
    {
        let curve: &Polynomial = match self.element {
            Element::Air => &config.air.cohesion,
            Element::Soil => &config.soil.cohesion,
            Element::Water => &config.water.cohesion,
        };
        curve.eval(self.saturation)
    }

    pub fn adhesion(&self, config: &Config) -> (r: i64)
        requires
            self.wf(),
            config.wf(),
        ensures
            r == spec_adhesion(*self, *config),
            in_bounds(r as int),
    {
        let curve: &Polynomial = match self.element {
            Element::Air => &config.air.adhesion,
            Element::Soil => &config.soil.adhesion,
            Element::Water => &config.water.adhesion,
        };
        curve.eval(self.saturation)
    }

    /// The symmetric pairwise attraction primitive.
    pub fn attractive_force(&self, other: &Tile, config: &Config) -> (r: i64)
        requires
            self.wf(),
            other.wf(),
            config.wf(),
        ensures
            r == spec_attractive_force(*self, *other, *config),
            in_bounds(r as int),
    {
        if self.element() == other.element() {
            mul_fp(self.cohesion(config), other.cohesion(config))
        } else {
            mul_fp(self.adhesion(config), other.adhesion(config))
        }
    }

    /// The phase this tile moves as under the given config.
    pub fn phase(&self, config: &Config) -> (r: Phase)
        ensures
            r == spec_phase(*self, *config),
    {
        match self.element {
            Element::Air => Phase::Gas,
            Element::Water => Phase::Liquid,
            Element::Soil => {
                if self.saturation > config.soil_liquid_saturation_threshold {
                    Phase::Liquid
                } else {
                    Phase::Solid
                }
            },
        }
    }
}

/// Every tile of a grid is well formed.
pub open spec fn tiles_wf(g: Grid<Tile>) -> bool {
    forall|k: int| 0 <= k < g.spec_cells().len() ==> (#[trigger] g.spec_cells()[k]).wf()
}

/// An in-range cell of a well-formed tile grid holds a well-formed tile.
pub proof fn lemma_tile_wf(g: Grid<Tile>, x: int, y: int)
    requires
        g.wf(),
        tiles_wf(g),
        g.spec_contains(x, y),
    ensures
        g.spec_cell(x, y).wf(),
{
    g.lemma_wf();
    crate::grid::lemma_rm_index(g.spec_width(), g.spec_height(), x, y);
}

/// The whole simulation state: the tile grid, its parameters, the last
/// tick's movement preferences and the conflict-resolution iteration
/// count of the last tick (a diagnostic).
#[derive(Debug, Clone)]
pub struct State {
    pub elements: Grid<Tile>,
    pub config: Config,
    pub potential_moves: Grid<PotentialMoves>,
    pub conflict_iters: usize,
}

impl State {
    /// Grids are well formed, nonempty, of equal extent, and every tile
    /// is well formed.
    pub open spec fn wf(&self) -> bool {
        &&& self.elements.wf()
        &&& self.config.wf()
        &&& tiles_wf(self.elements)
        &&& 1 <= self.elements.spec_width()
        &&& 1 <= self.elements.spec_height()
        &&& self.potential_moves.wf()
        &&& self.potential_moves.spec_width() == self.elements.spec_width()
        &&& self.potential_moves.spec_height() == self.elements.spec_height()
    }
}


/// Sum of the saturations of the present cells among the first `i`
/// offsets of the three-by-three window around `(x, y)`.
pub open spec fn spec_win_sat_sum(g: Grid<Tile>, x: int, y: int, i: int) -> int
    decreases i,
{
    if i <= 0 {
        0
    } else {
        let dx = (i - 1) % 3 - 1;
        let dy = (i - 1) / 3 - 1;
        spec_win_sat_sum(g, x, y, i - 1) + (if g.spec_contains(x + dx, y + dy) {
            g.spec_cell(x + dx, y + dy).spec_saturation() as int
        } else {
            0
        })
    }
}

/// Number of present cells among the first `i` window offsets.
pub open spec fn spec_win_count(g: Grid<Tile>, x: int, y: int, i: int) -> int
    decreases i,
{
    if i <= 0 {
        0
    } else {
        let dx = (i - 1) % 3 - 1;
        let dy = (i - 1) / 3 - 1;
        spec_win_count(g, x, y, i - 1) + (if g.spec_contains(x + dx, y + dy) {
            1int
        } else {
            0int
        })
    }
}

/// Clamp a scalar into the saturation range `[0, SCALE]`.
pub open spec fn spec_clamp_unit(a: int) -> int {
    if a < 0 {
        0
    } else if a > SCALE {
        SCALE as int
    } else {
        a
    }
}

/// The tile at `(x, y)` after one diffusion step: saturation moves by
/// `rate` times the gap to the window average, then is clamped into
/// `[0, 1]`; the element is untouched.
pub open spec fn spec_diffused(g: Grid<Tile>, config: Config, x: int, y: int) -> Tile {
    let t = g.spec_cell(x, y);
    let avg = spec_win_sat_sum(g, x, y, 9) / spec_win_count(g, x, y, 9);
    let delta = spec_mul(
        config.saturation_diffusion_rate as int,
        avg - t.spec_saturation(),
    );
    Tile {
        element: t.element,
        saturation: spec_clamp_unit(t.spec_saturation() + delta) as i64,
    }
}

/// A destination-to-source permutation of the grid coordinates.
pub open spec fn is_permutation_grid(m: Grid<(isize, isize)>) -> bool {
    &&& m.wf()
    &&& forall|dx: int, dy: int|
        0 <= dx < m.spec_width() && 0 <= dy < m.spec_height() ==> {
            let s = #[trigger] m.spec_cell(dx, dy);
            0 <= s.0 < m.spec_width() && 0 <= s.1 < m.spec_height()
        }
    &&& forall|x1: int, y1: int, x2: int, y2: int|
        0 <= x1 < m.spec_width() && 0 <= y1 < m.spec_height() && 0 <= x2 < m.spec_width() && 0
            <= y2 < m.spec_height() && (x1, y1) != (x2, y2) ==> #[trigger] m.spec_cell(x1, y1)
            != #[trigger] m.spec_cell(x2, y2)
    &&& forall|sx: int, sy: int|
        0 <= sx < m.spec_width() && 0 <= sy < m.spec_height() ==> #[trigger] appears(m, sx, sy)
}

/// The grid `after` is `before` rearranged by the permutation `m`.
pub open spec fn rebuilt_by(
    before: Grid<Tile>,
    after: Grid<Tile>,
    m: Grid<(isize, isize)>,
) -> bool {
    &&& m.spec_width() == before.spec_width()
    &&& m.spec_height() == before.spec_height()
    &&& is_permutation_grid(m)
    &&& forall|dx: int, dy: int|
        0 <= dx < before.spec_width() && 0 <= dy < before.spec_height()
            ==> #[trigger] after.spec_cell(dx, dy) == before.spec_cell(
            m.spec_cell(dx, dy).0 as int,
            m.spec_cell(dx, dy).1 as int,
        )
}

/// The movement phase in full: `after` is `before` rearranged by the
/// permutation `m`, and `m` hands every source whose preference cursor
/// still points at a destination exactly that destination (the rest
/// were orphans filled in by the nearest-free fallback).
pub open spec fn movement_ok(
    before: Grid<Tile>,
    after: Grid<Tile>,
    pm: Grid<PotentialMoves>,
    m: Grid<(isize, isize)>,
) -> bool {
    &&& rebuilt_by(before, after, m)
    &&& forall|sx: int, sy: int|
        0 <= sx < pm.spec_width() && 0 <= sy < pm.spec_height() && (#[trigger] head_of(
            pm,
            sx,
            sy,
        )).is_some() ==> {
            let d = head_of(pm, sx, sy)->Some_0;
            m.spec_cell(d.0 as int, d.1 as int) == ((sx as isize, sy as isize))
        }
}

/// The per-tick preference grid is exactly the scorer's ranking of the
/// pre-movement grid, with cursors advanced only by lost conflicts.
pub open spec fn resolved_rankings_ok(
    before: Grid<Tile>,
    config: Config,
    pm: Grid<PotentialMoves>,
) -> bool {
    &&& pm.spec_width() == before.spec_width()
    &&& pm.spec_height() == before.spec_height()
    &&& forall|x: int, y: int|
        0 <= x < pm.spec_width() && 0 <= y < pm.spec_height() ==> {
            let p = #[trigger] pm.spec_cell(x, y);
            &&& ranked_prefs_ok(before, config, p.spec_prefs(), x, y)
            &&& 0 <= p.spec_current() <= p.spec_prefs().len()
        }
}

/// What holds of every freshly generated tile, whatever the draws
/// came out as: the saturation range fits the element.
pub open spec fn spec_generated_tile(t: Tile) -> bool {
    match t.spec_element() {
        Element::Air => 500 <= t.spec_saturation() <= 750,
        Element::Soil => 500 <= t.spec_saturation() <= 900,
        Element::Water => t.spec_saturation() == SCALE,
    }
}

impl State {
    /// Build a randomized initial grid: each cell draws an element and
    /// an element-dependent saturation (air in `[0.5, 0.75]`, soil in
    /// `[0.5, 0.9]`, water exactly `1`).
    pub fn gen(config: Config, width: usize, height: usize) -> (r: State)
        requires
            config.wf(),
            1 <= width <= crate::grid::MAX_EXTENT,
            1 <= height <= crate::grid::MAX_EXTENT,
        ensures
            r.wf(),
            r.config == config,
            r.elements.spec_width() == width,
            r.elements.spec_height() == height,
            forall|x: int, y: int|
                0 <= x < width && 0 <= y < height ==> spec_generated_tile(
                    #[trigger] r.elements.spec_cell(x, y),
                ),
            forall|x: int, y: int|
                0 <= x < width && 0 <= y < height ==> {
                    let p = #[trigger] r.potential_moves.spec_cell(x, y);
                    p.spec_prefs().len() == 0 && p.spec_current() == 0
                },
            r.conflict_iters == 0,
    {
        proof {
            assert(width * height <= 4096 * 4096) by (nonlinear_arith)
                requires
                    width <= 4096,
                    height <= 4096,
            ;
        }
        let total: usize = width * height;
        let mut rng = fresh_rng();
        let mut cells: Vec<Tile> = Vec::new();
        let mut i: usize = 0;
        while i < total
            invariant
                i <= total,
                cells@.len() == i,
                forall|k: int| 0 <= k < i ==> (#[trigger] cells@[k]).wf(),
                forall|k: int| 0 <= k < i ==> spec_generated_tile(#[trigger] cells@[k]),
            decreases total - i,
        {
            let kind = next_below(&mut rng, 3);
            let tile = if kind == 0 {
                let extra = next_below(&mut rng, 251);
                Tile::new(Element::Air, 500 + extra as i64)
            } else if kind == 1 {
                let extra = next_below(&mut rng, 401);
                Tile::new(Element::Soil, 500 + extra as i64)
            } else {
                Tile::new(Element::Water, SCALE)
            };
            cells.push(tile);
            i += 1;
        }
        let elements = Grid::from_cells(width, height, cells);
        let mut moves: Vec<PotentialMoves> = Vec::new();
        let mut j: usize = 0;
        while j < total
            invariant
                j <= total,
                moves@.len() == j,
                forall|k: int|
                    0 <= k < j ==> (#[trigger] moves@[k]).spec_prefs().len() == 0
                        && moves@[k].spec_current() == 0,
            decreases total - j,
        {
            moves.push(PotentialMoves::new(Vec::new()));
            j += 1;
        }
        let potential_moves = Grid::from_cells(width, height, moves);
        let r = State { elements, config, potential_moves, conflict_iters: 0 };
        proof {
            assert forall|x: int, y: int|
                0 <= x < width && 0 <= y < height implies spec_generated_tile(
                #[trigger] r.elements.spec_cell(x, y),
            ) by {
                lemma_rm_index(width as int, height as int, x, y);
            }
            assert forall|x: int, y: int| 0 <= x < width && 0 <= y < height implies {
                let p = #[trigger] r.potential_moves.spec_cell(x, y);
                p.spec_prefs().len() == 0 && p.spec_current() == 0
            } by {
                lemma_rm_index(width as int, height as int, x, y);
            }
        }
        r
    }

    /// Advance one tick: rebuild the pairwise scorer, rank every cell's
    /// candidate destinations, resolve all conflicts into a permutation,
    /// rebuild the grid by it, diffuse saturation, and re-evaluate each
    /// element from its new saturation.  The tick factors exactly into
    /// those three passes: a permutation of the old tiles, then
    /// diffusion of that grid, then pointwise phase transitions; in
    /// particular every saturation ends the tick within `[0, 1]`.
    pub fn update(&mut self)
        requires
            old(self).wf(),
        ensures
            final (self).wf(),
            final (self).elements.spec_width() == old(self).elements.spec_width(),
            final (self).elements.spec_height() == old(self).elements.spec_height(),
            final (self).config == old(self).config,
            resolved_rankings_ok(
                old(self).elements,
                old(self).config,
                final (self).potential_moves,
            ),
            exists|m: Grid<(isize, isize)>, moved: Grid<Tile>|
                {
                    &&& #[trigger] movement_ok(
                        old(self).elements,
                        moved,
                        final (self).potential_moves,
                        m,
                    )
                    &&& moved.spec_width() == old(self).elements.spec_width()
                    &&& moved.spec_height() == old(self).elements.spec_height()
                    &&& forall|x: int, y: int|
                        0 <= x < moved.spec_width() && 0 <= y < moved.spec_height()
                            ==> #[trigger] final (self).elements.spec_cell(x, y)
                            == spec_transition(
                            spec_diffused(moved, old(self).config, x, y),
                            old(self).config,
                        )
                },
            forall|x: int, y: int|
                0 <= x < old(self).elements.spec_width() && 0 <= y < old(
                    self,
                ).elements.spec_height() ==> 0 <= (#[trigger] final (self).elements.spec_cell(
                    x,
                    y,
                )).spec_saturation() <= SCALE,
            1 <= final (self).conflict_iters <= 9 * (old(self).elements.spec_width() * old(
                self,
            ).elements.spec_height()) + 1,
    {
        let ghost s0 = *self;
        self.update_position();
        let ghost s1 = *self;
        let ghost m = choose|m: Grid<(isize, isize)>|
            movement_ok(s0.elements, s1.elements, s1.potential_moves, m);
        self.update_saturations();
        let ghost s2 = *self;
        self.update_elements();
        proof {
            assert(movement_ok(s0.elements, s1.elements, s1.potential_moves, m));
            assert(self.potential_moves == s1.potential_moves);
            assert forall|x: int, y: int|
                0 <= x < s1.elements.spec_width() && 0 <= y < s1.elements.spec_height()
                    implies #[trigger] self.elements.spec_cell(x, y) == spec_transition(
                spec_diffused(s1.elements, s0.config, x, y),
                s0.config,
            ) by {
                assert(s2.elements.spec_cell(x, y) == spec_diffused(s1.elements, s0.config, x, y));
            }
            assert forall|x: int, y: int|
                0 <= x < s0.elements.spec_width() && 0 <= y < s0.elements.spec_height()
                    implies 0 <= (#[trigger] self.elements.spec_cell(x, y)).spec_saturation()
                <= SCALE by {
                self.elements.lemma_wf();
                lemma_tile_wf(self.elements, x, y);
            }
        }
    }

    /// Movement phase: the tick's exact rankings are generated and
    /// resolved, and the resulting permutation — which assigns every
    /// source its surviving head — rearranges the tiles; no tile is
    /// created or destroyed.
    fn update_position(&mut self)
        requires
            old(self).wf(),
        ensures
            final (self).wf(),
            final (self).elements.spec_width() == old(self).elements.spec_width(),
            final (self).elements.spec_height() == old(self).elements.spec_height(),
            final (self).config == old(self).config,
            resolved_rankings_ok(
                old(self).elements,
                old(self).config,
                final (self).potential_moves,
            ),
            exists|m: Grid<(isize, isize)>|
                #[trigger] movement_ok(
                    old(self).elements,
                    final (self).elements,
                    final (self).potential_moves,
                    m,
                ),
            1 <= final (self).conflict_iters <= 9 * (old(self).elements.spec_width() * old(
                self,
            ).elements.spec_height()) + 1,
    {
        let ghost oldelems = self.elements;
        let ghost gw = self.elements.spec_width();
        let ghost gh = self.elements.spec_height();
        proof {
            self.elements.lemma_wf();
        }
        let scorer = PairwiseTileScorer::new(self);
        let pm = ranked_potential_moves(&scorer, &self.config);
        self.potential_moves = pm;
        let ghost pmgen = self.potential_moves;
        proof {
            self.potential_moves.lemma_wf();
            crate::simulation::conflict::lemma_sum_remaining_bound(
                self.potential_moves.spec_cells(),
                9,
            );
            assert(9 * (gw * gh) < usize::MAX) by (nonlinear_arith)
                requires
                    0 <= gw <= 4096,
                    0 <= gh <= 4096,
            ;
            assert(crate::simulation::conflict::spec_total_remaining(self.potential_moves) <= 9
                * (gw * gh));
        }
        let (moves, iters) = reduce_potential_moves(
            &scorer,
            &self.config,
            &mut self.potential_moves,
        );
        self.conflict_iters = iters;
        let w = GridLike::width(&self.elements);
        let h = GridLike::height(&self.elements);
        let mut cells: Vec<Tile> = Vec::new();
        let mut y: usize = 0;
        while y < h
            invariant
                oldelems == self.elements,
                self.elements.wf(),
                tiles_wf(self.elements),
                gw == self.elements.spec_width(),
                gh == self.elements.spec_height(),
                0 <= gw <= crate::grid::MAX_EXTENT,
                0 <= gh <= crate::grid::MAX_EXTENT,
                w == gw,
                h == gh,
                moves.wf(),
                moves.spec_width() == gw,
                moves.spec_height() == gh,
                forall|dx: int, dy: int|
                    0 <= dx < gw && 0 <= dy < gh ==> {
                        let s = #[trigger] moves.spec_cell(dx, dy);
                        0 <= s.0 < gw && 0 <= s.1 < gh
                    },
                y <= h,
                cells@.len() == y * w,
                forall|k: int| 0 <= k < cells@.len() ==> (#[trigger] cells@[k]).wf(),
                forall|k: int|
                    0 <= k < cells@.len() ==> #[trigger] cells@[k] == oldelems.spec_cell(
                        moves.spec_cells()[k].0 as int,
                        moves.spec_cells()[k].1 as int,
                    ),
            decreases gh - y,
        {
            let mut x: usize = 0;
            while x < w
                invariant
                    oldelems == self.elements,
                    self.elements.wf(),
                    tiles_wf(self.elements),
                    gw == self.elements.spec_width(),
                    gh == self.elements.spec_height(),
                    0 <= gw <= crate::grid::MAX_EXTENT,
                    0 <= gh <= crate::grid::MAX_EXTENT,
                    w == gw,
                    h == gh,
                    moves.wf(),
                    moves.spec_width() == gw,
                    moves.spec_height() == gh,
                    forall|dx: int, dy: int|
                        0 <= dx < gw && 0 <= dy < gh ==> {
                            let s = #[trigger] moves.spec_cell(dx, dy);
                            0 <= s.0 < gw && 0 <= s.1 < gh
                        },
                    y < h,
                    x <= w,
                    cells@.len() == y * w + x,
                    forall|k: int| 0 <= k < cells@.len() ==> (#[trigger] cells@[k]).wf(),
                    forall|k: int|
                        0 <= k < cells@.len() ==> #[trigger] cells@[k] == oldelems.spec_cell(
                            moves.spec_cells()[k].0 as int,
                            moves.spec_cells()[k].1 as int,
                        ),
                decreases gw - x,
            {
                proof {
                    lemma_rm_index(gw, gh, x as int, y as int);
                }
                let mv = match GridLike::get(&moves, x as isize, y as isize) {
                    Some(mv) => *mv,
                    None => vstd::pervasive::unreached(),
                };
                proof {
                    lemma_tile_wf(self.elements, mv.0 as int, mv.1 as int);
                }
                let t = match GridLike::get(&self.elements, mv.0, mv.1) {
                    Some(t) => *t,
                    None => vstd::pervasive::unreached(),
                };
                cells.push(t);
                x += 1;
            }
            y += 1;
            proof {
                assert(y * w == (y - 1) * w + w) by (nonlinear_arith);
            }
        }
        proof {
            assert(gh * gw == gw * gh) by (nonlinear_arith);
        }
        let rebuilt = Grid::from_cells(w, h, cells);
        self.elements = rebuilt;
        proof {
            assert forall|dx: int, dy: int| 0 <= dx < gw && 0 <= dy < gh implies #[trigger]
                rebuilt.spec_cell(dx, dy) == oldelems.spec_cell(
                moves.spec_cell(dx, dy).0 as int,
                moves.spec_cell(dx, dy).1 as int,
            ) by {
                lemma_rm_index(gw, gh, dx, dy);
            }
            assert forall|k: int|
                0 <= k < rebuilt.spec_cells().len() implies (#[trigger]
            rebuilt.spec_cells()[k]).wf() by {}
            assert(rebuilt_by(oldelems, rebuilt, moves));
            assert forall|x: int, y: int| 0 <= x < gw && 0 <= y < gh implies {
                let p = #[trigger] self.potential_moves.spec_cell(x, y);
                &&& ranked_prefs_ok(oldelems, self.config, p.spec_prefs(), x, y)
                &&& 0 <= p.spec_current() <= p.spec_prefs().len()
            } by {
                crate::simulation::conflict::lemma_moves_wf_at(self.potential_moves, x, y);
                assert(crate::simulation::score::ranked_cell_ok(
                    oldelems,
                    self.config,
                    pmgen.spec_cell(x, y),
                    x,
                    y,
                ));
                assert(self.potential_moves.spec_cell(x, y).spec_prefs() == pmgen.spec_cell(
                    x,
                    y,
                ).spec_prefs());
            }
            assert(resolved_rankings_ok(oldelems, self.config, self.potential_moves));
            assert(movement_ok(oldelems, rebuilt, self.potential_moves, moves));
        }
    }

    /// Diffusion phase: every cell's saturation moves toward its window
    /// average, computed from a snapshot of the whole previous grid, and
    /// stays within `[0, 1]`.
    fn update_saturations(&mut self)
        requires
            old(self).wf(),
        ensures
            final (self).wf(),
            final (self).elements.spec_width() == old(self).elements.spec_width(),
            final (self).elements.spec_height() == old(self).elements.spec_height(),
            final (self).config == old(self).config,
            final (self).conflict_iters == old(self).conflict_iters,
            final (self).potential_moves == old(self).potential_moves,
            forall|x: int, y: int|
                0 <= x < old(self).elements.spec_width() && 0 <= y < old(
                    self,
                ).elements.spec_height() ==> #[trigger] final (self).elements.spec_cell(x, y)
                    == spec_diffused(old(self).elements, old(self).config, x, y),
            forall|x: int, y: int|
                0 <= x < old(self).elements.spec_width() && 0 <= y < old(
                    self,
                ).elements.spec_height() ==> 0 <= (#[trigger] final (self).elements.spec_cell(
                    x,
                    y,
                )).spec_saturation() <= SCALE,
    {
        let ghost oldelems = self.elements;
        let ghost cfg = self.config;
        let ghost gw = self.elements.spec_width();
        let ghost gh = self.elements.spec_height();
        proof {
            self.elements.lemma_wf();
        }
        let w = GridLike::width(&self.elements);
        let h = GridLike::height(&self.elements);
        let mut cells: Vec<Tile> = Vec::new();
        let mut y: usize = 0;
        while y < h
            invariant
                oldelems == self.elements,
                self.wf(),
                cfg == self.config,
                gw == self.elements.spec_width(),
                gh == self.elements.spec_height(),
                0 <= gw <= crate::grid::MAX_EXTENT,
                0 <= gh <= crate::grid::MAX_EXTENT,
                w == gw,
                h == gh,
                y <= h,
                cells@.len() == y * w,
                forall|k: int| 0 <= k < cells@.len() ==> (#[trigger] cells@[k]).wf(),
                forall|k: int|
                    0 <= k < cells@.len() ==> #[trigger] cells@[k] == spec_diffused(
                        oldelems,
                        cfg,
                        k % gw,
                        k / gw,
                    ),
            decreases gh - y,
        {
            let mut x: usize = 0;
            while x < w
                invariant
                    oldelems == self.elements,
                    self.wf(),
                    cfg == self.config,
                    gw == self.elements.spec_width(),
                    gh == self.elements.spec_height(),
                    0 <= gw <= crate::grid::MAX_EXTENT,
                    0 <= gh <= crate::grid::MAX_EXTENT,
                    w == gw,
                    h == gh,
                    y < h,
                    x <= w,
                    cells@.len() == y * w + x,
                    forall|k: int| 0 <= k < cells@.len() ==> (#[trigger] cells@[k]).wf(),
                    forall|k: int|
                        0 <= k < cells@.len() ==> #[trigger] cells@[k] == spec_diffused(
                            oldelems,
                            cfg,
                            k % gw,
                            k / gw,
                        ),
                decreases gw - x,
            {
                proof {
                    lemma_rm_index(gw, gh, x as int, y as int);
                    lemma_tile_wf(self.elements, x as int, y as int);
                }
                let t = match GridLike::get(&self.elements, x as isize, y as isize) {
                    Some(t) => *t,
                    None => vstd::pervasive::unreached(),
                };
                let mut sum: i64 = 0;
                let mut cnt: i64 = 0;
                let mut i: usize = 0;
                while i < 9
                    invariant
                        oldelems == self.elements,
                        self.wf(),
                        gw == self.elements.spec_width(),
                        gh == self.elements.spec_height(),
                        0 <= gw <= crate::grid::MAX_EXTENT,
                        0 <= gh <= crate::grid::MAX_EXTENT,
                        x < gw,
                        y < gh,
                        i <= 9,
                        0 <= cnt <= i,
                        0 <= sum <= i * SCALE,
                        sum == spec_win_sat_sum(oldelems, x as int, y as int, i as int),
                        cnt == spec_win_count(oldelems, x as int, y as int, i as int),
                        i > 4 ==> cnt >= 1,
                    decreases 9 - i,
                {
                    let dx: isize = (i % 3) as isize - 1;
                    let dy: isize = (i / 3) as isize - 1;
                    match GridLike::get(&self.elements, x as isize + dx, y as isize + dy) {
                        Some(o) => {
                            proof {
                                lemma_tile_wf(
                                    oldelems,
                                    x as int + dx as int,
                                    y as int + dy as int,
                                );
                            }
                            sum = sum + o.saturation();
                            cnt = cnt + 1;
                        },
                        None => {},
                    }
                    i += 1;
                }
                let avg: i64 = ((sum as u64) / (cnt as u64)) as i64;
                proof {
                    assert(0 <= avg <= 9 * SCALE);
                    assert(in_bounds(avg - t.spec_saturation()));
                    assert(in_bounds(cfg.saturation_diffusion_rate as int));
                }
                let delta = mul_fp(self.config.saturation_diffusion_rate, avg - t.saturation());
                let nt = Tile::new(t.element(), t.saturation() + delta);
                cells.push(nt);
                x += 1;
            }
            y += 1;
            proof {
                assert(y * w == (y - 1) * w + w) by (nonlinear_arith);
            }
        }
        proof {
            assert(gh * gw == gw * gh) by (nonlinear_arith);
        }
        let rebuilt = Grid::from_cells(w, h, cells);
        self.elements = rebuilt;
        proof {
            assert forall|x: int, y: int| 0 <= x < gw && 0 <= y < gh implies #[trigger]
                self.elements.spec_cell(x, y) == spec_diffused(oldelems, cfg, x, y) by {
                lemma_rm_index(gw, gh, x, y);
            }
        }
    }

    /// Phase-transition phase: every cell's element is re-evaluated
    /// from its (unchanged) saturation.
    fn update_elements(&mut self)
        requires
            old(self).wf(),
        ensures
            final (self).wf(),
            final (self).elements.spec_width() == old(self).elements.spec_width(),
            final (self).elements.spec_height() == old(self).elements.spec_height(),
            final (self).config == old(self).config,
            final (self).conflict_iters == old(self).conflict_iters,
            final (self).potential_moves == old(self).potential_moves,
            forall|x: int, y: int|
                0 <= x < old(self).elements.spec_width() && 0 <= y < old(
                    self,
                ).elements.spec_height() ==> #[trigger] final (self).elements.spec_cell(x, y)
                    == spec_transition(old(self).elements.spec_cell(x, y), old(self).config),
    {
        let ghost oldelems = self.elements;
        let ghost cfg = self.config;
        let ghost gw = self.elements.spec_width();
        let ghost gh = self.elements.spec_height();
        proof {
            self.elements.lemma_wf();
        }
        let w = GridLike::width(&self.elements);
        let h = GridLike::height(&self.elements);
        let mut cells: Vec<Tile> = Vec::new();
        let mut y: usize = 0;
        while y < h
            invariant
                oldelems == self.elements,
                self.wf(),
                cfg == self.config,
                gw == self.elements.spec_width(),
                gh == self.elements.spec_height(),
                0 <= gw <= crate::grid::MAX_EXTENT,
                0 <= gh <= crate::grid::MAX_EXTENT,
                w == gw,
                h == gh,
                y <= h,
                cells@.len() == y * w,
                forall|k: int| 0 <= k < cells@.len() ==> (#[trigger] cells@[k]).wf(),
                forall|k: int|
                    0 <= k < cells@.len() ==> #[trigger] cells@[k] == spec_transition(
                        oldelems.spec_cells()[k],
                        cfg,
                    ),
            decreases gh - y,
        {
            let mut x: usize = 0;
            while x < w
                invariant
                    oldelems == self.elements,
                    self.wf(),
                    cfg == self.config,
                    gw == self.elements.spec_width(),
                    gh == self.elements.spec_height(),
                    0 <= gw <= crate::grid::MAX_EXTENT,
                    0 <= gh <= crate::grid::MAX_EXTENT,
                    w == gw,
                    h == gh,
                    y < h,
                    x <= w,
                    cells@.len() == y * w + x,
                    forall|k: int| 0 <= k < cells@.len() ==> (#[trigger] cells@[k]).wf(),
                    forall|k: int|
                        0 <= k < cells@.len() ==> #[trigger] cells@[k] == spec_transition(
                            oldelems.spec_cells()[k],
                            cfg,
                        ),
                decreases gw - x,
            {
                proof {
                    lemma_rm_index(gw, gh, x as int, y as int);
                    lemma_tile_wf(self.elements, x as int, y as int);
                }
                let t = match GridLike::get(&self.elements, x as isize, y as isize) {
                    Some(t) => *t,
                    None => vstd::pervasive::unreached(),
                };
                let nt = match t.element() {
                    Element::Air => {
                        if t.saturation() >= self.config.air_to_water_saturation_threshold {
                            Tile { element: Element::Water, saturation: t.saturation() }
                        } else {
                            t
                        }
                    },
                    Element::Water => {
                        if t.saturation() < self.config.water_to_air_saturation_threshold {
                            Tile { element: Element::Air, saturation: t.saturation() }
                        } else {
                            t
                        }
                    },
                    Element::Soil => t,
                };
                cells.push(nt);
                x += 1;
            }
            y += 1;
            proof {
                assert(y * w == (y - 1) * w + w) by (nonlinear_arith);
            }
        }
        proof {
            assert(gh * gw == gw * gh) by (nonlinear_arith);
        }
        let rebuilt = Grid::from_cells(w, h, cells);
        self.elements = rebuilt;
        proof {
            assert forall|x: int, y: int| 0 <= x < gw && 0 <= y < gh implies #[trigger]
                self.elements.spec_cell(x, y) == spec_transition(
                oldelems.spec_cell(x, y),
                cfg,
            ) by {
                lemma_rm_index(gw, gh, x, y);
            }
        }
    }
}

/// Running the phase-transition step twice with unchanging saturation
/// gives the same tile as running it once, provided the water-to-air
/// threshold does not exceed the air-to-water threshold: transitions are
/// one-directional crossings that cannot oscillate.
pub proof fn lemma_transition_idempotent(t: Tile, config: Config)
    requires
        config.water_to_air_saturation_threshold <= config.air_to_water_saturation_threshold,
    ensures
        spec_transition(spec_transition(t, config), config) == spec_transition(t, config),
{
}

} // verus!
