//! Movement intentions and their conflict-free resolution.
//!
//! Every cell proposes a ranked list of candidate destinations; the
//! resolver turns all the lists into a grid-wide bijection from
//! destinations to sources.

use vstd::prelude::*;

use crate::grid::{lemma_rm_index, lemma_rm_index_injective, rm_index, Grid, GridLike};
use crate::simulation::score::{spec_chebyshev, spec_position_score, PairwiseTileScorer};
use crate::simulation::config::Config;
use crate::simulation::Tile;
use vstd::pervasive::unreached;

verus! {

/// A cell's ranked candidate destinations, most preferred first.  The
/// cursor advances past destinations lost to higher-scoring rivals; a
/// cell whose cursor has passed the end is an orphan.
#[derive(Debug, Clone)]
pub struct PotentialMoves {
    preferences: Vec<(isize, isize)>,
    current: usize,
}

impl PotentialMoves {
    pub closed spec fn spec_prefs(&self) -> Seq<(isize, isize)> {
        self.preferences@
    }

    pub closed spec fn spec_current(&self) -> int {
        self.current as int
    }

    /// The cursor never runs past one step beyond the last entry.
    pub open spec fn wf(&self) -> bool {
        0 <= self.spec_current() <= self.spec_prefs().len()
    }

    /// The currently proposed destination, if any remains.
    pub open spec fn spec_head(&self) -> Option<(isize, isize)> {
        if self.spec_current() < self.spec_prefs().len() {
            Some(self.spec_prefs()[self.spec_current()])
        } else {
            None
        }
    }

    /// How many candidates remain, the head included.
    pub open spec fn spec_remaining(&self) -> int {
        self.spec_prefs().len() - self.spec_current()
    }

    pub fn new(preferences: Vec<(isize, isize)>) -> (r: PotentialMoves)
        ensures
            r.wf(),
            r.spec_prefs() == preferences@,
            r.spec_current() == 0,
    {
        PotentialMoves { current: 0, preferences }
    }

    /// The currently proposed destination, if any remains.
    pub fn current(&self) -> (r: Option<(isize, isize)>)
        requires
            self.wf(),
        ensures
            r == self.spec_head(),
    {
        if self.current < self.preferences.len() {
            Some(self.preferences[self.current])
        } else {
            None
        }
    }

    /// Give up on the current head and advance to the next choice.
    pub fn pop(&mut self)
        requires
            old(self).wf(),
            old(self).spec_head().is_some(),
        ensures
            final (self).wf(),
            final (self).spec_prefs() == old(self).spec_prefs(),
            final (self).spec_current() == old(self).spec_current() + 1,
    {
        let n = self.preferences.len();
        self.current = self.current + 1;
    }
}

/// The transient per-destination record of one resolution pass: which
/// sources currently propose to move here.
#[derive(Debug, Clone)]
pub struct MoveConflict {
    candidates: Vec<(isize, isize)>,
}

impl MoveConflict {
    pub closed spec fn spec_candidates(&self) -> Seq<(isize, isize)> {
        self.candidates@
    }

    /// No proposer yet.
    pub fn new() -> (r: MoveConflict)
        ensures
            r.spec_candidates().len() == 0,
    {
        MoveConflict { candidates: Vec::new() }
    }

    /// Exactly one proposer.
    pub fn is_resolved(&self) -> (r: bool)
        ensures
            r == (self.spec_candidates().len() == 1),
    {
        self.candidates.len() == 1
    }

    /// Two or more proposers compete for this destination.
    pub fn is_in_conflict(&self) -> (r: bool)
        ensures
            r == (self.spec_candidates().len() > 1),
    {
        self.candidates.len() > 1
    }

    /// Record one more proposer.
    pub fn push_move(&mut self, m: (isize, isize))
        requires
            old(self).spec_candidates().len() < usize::MAX,
        ensures
            final (self).spec_candidates() == old(self).spec_candidates().push(m),
    {
        self.candidates.push(m);
    }

    /// Drop all proposers.
    pub fn reset(&mut self)
        ensures
            final (self).spec_candidates().len() == 0,
    {
        self.candidates.clear();
    }

    /// The sole proposer of a resolved destination.
    pub fn resolved_move(&self) -> (r: (isize, isize))
        requires
            self.spec_candidates().len() >= 1,
        ensures
            r == self.spec_candidates()[0],
    {
        self.candidates[0]
    }

    /// All current proposers, in the order they were recorded.
    pub fn candidates(&self) -> (r: &Vec<(isize, isize)>)
        ensures
            r@ == self.spec_candidates(),
    {
        &self.candidates
    }
}

/// A preference list is valid for the source at `(sx, sy)`: every
/// candidate destination is in bounds and at most one cell away.
pub open spec fn pm_wf(p: PotentialMoves, sx: int, sy: int, w: int, h: int) -> bool {
    &&& p.wf()
    &&& forall|i: int|
        0 <= i < p.spec_prefs().len() ==> {
            let d = #[trigger] p.spec_prefs()[i];
            &&& 0 <= d.0 < w
            &&& 0 <= d.1 < h
            &&& spec_chebyshev(sx, sy, d.0 as int, d.1 as int) <= 1
        }
}

/// The preference list of the source with flat index `k` is valid.
pub open spec fn pm_entry_wf(g: Grid<PotentialMoves>, k: int) -> bool {
    pm_wf(
        g.spec_cells()[k],
        k % g.spec_width(),
        k / g.spec_width(),
        g.spec_width(),
        g.spec_height(),
    )
}

/// Every cell's preference list is valid for its own coordinates.
pub open spec fn moves_wf(g: Grid<PotentialMoves>) -> bool {
    &&& g.wf()
    &&& forall|k: int| 0 <= k < g.spec_cells().len() ==> #[trigger] pm_entry_wf(g, k)
}

/// The valid-preferences fact at explicit coordinates.
pub proof fn lemma_moves_wf_at(g: Grid<PotentialMoves>, x: int, y: int)
    requires
        moves_wf(g),
        g.spec_contains(x, y),
    ensures
        pm_wf(g.spec_cell(x, y), x, y, g.spec_width(), g.spec_height()),
{
    g.lemma_wf();
    lemma_rm_index(g.spec_width(), g.spec_height(), x, y);
    assert(pm_entry_wf(g, rm_index(g.spec_width(), x, y)));
}

/// The current head of the preference list at a coordinate.
pub open spec fn head_of(g: Grid<PotentialMoves>, x: int, y: int) -> Option<(isize, isize)> {
    g.spec_cell(x, y).spec_head()
}

/// Total number of candidates remaining over a sequence of cells.
pub open spec fn sum_remaining(s: Seq<PotentialMoves>) -> int
    decreases s.len(),
{
    if s.len() == 0 {
        0
    } else {
        sum_remaining(s.drop_last()) + s.last().spec_remaining()
    }
}

/// Total number of candidates remaining over the whole grid.
pub open spec fn spec_total_remaining(g: Grid<PotentialMoves>) -> int {
    sum_remaining(g.spec_cells())
}

/// Replacing one cell changes the sum by the difference at that cell.
pub proof fn lemma_sum_remaining_update(s: Seq<PotentialMoves>, i: int, p: PotentialMoves)
    requires
        0 <= i < s.len(),
    ensures
        sum_remaining(s.update(i, p)) == sum_remaining(s) - s[i].spec_remaining()
            + p.spec_remaining(),
    decreases s.len(),
{
    if i == s.len() - 1 {
        assert(s.update(i, p).drop_last() =~= s.drop_last());
    } else {
        assert(s.update(i, p).drop_last() =~= s.drop_last().update(i, p));
        lemma_sum_remaining_update(s.drop_last(), i, p);
    }
}

/// A pointwise bound on remaining counts bounds the sum.
pub proof fn lemma_sum_remaining_bound(s: Seq<PotentialMoves>, b: int)
    requires
        0 <= b,
        forall|j: int| 0 <= j < s.len() ==> (#[trigger] s[j]).spec_remaining() <= b,
    ensures
        sum_remaining(s) <= b * s.len(),
    decreases s.len(),
{
    if s.len() == 0 {
    } else {
        lemma_sum_remaining_bound(s.drop_last(), b);
        assert(b * (s.len() - 1) + b == b * s.len()) by (nonlinear_arith);
    }
}

/// Well-formed cells have non-negative remaining counts, so the sum is
/// at least any single cell's contribution and never negative.
pub proof fn lemma_sum_remaining_nonneg(s: Seq<PotentialMoves>)
    requires
        forall|j: int| 0 <= j < s.len() ==> (#[trigger] s[j]).wf(),
    ensures
        sum_remaining(s) >= 0,
    decreases s.len(),
{
    if s.len() > 0 {
        lemma_sum_remaining_nonneg(s.drop_last());
    }
}

/// The sources among the first `n` (in row-major order) whose current
/// head is the destination `d`, in scan order.
pub open spec fn spec_proposers(g: Grid<PotentialMoves>, d: (isize, isize), n: int) -> Seq<
    (isize, isize),
>
    decreases n,
{
    if n <= 0 {
        Seq::empty()
    } else {
        let prev = spec_proposers(g, d, n - 1);
        let sx = (n - 1) % g.spec_width();
        let sy = (n - 1) / g.spec_width();
        if head_of(g, sx, sy) == Some(d) {
            prev.push((sx as isize, sy as isize))
        } else {
            prev
        }
    }
}

/// Every proposer is an in-bounds source whose head is `d`, listed in
/// strictly increasing row-major order (so proposers are distinct).
pub proof fn lemma_proposers_sound(g: Grid<PotentialMoves>, d: (isize, isize), n: int)
    requires
        g.wf(),
        0 <= n <= g.spec_width() * g.spec_height(),
    ensures
        spec_proposers(g, d, n).len() <= n,
        forall|j: int|
            0 <= j < spec_proposers(g, d, n).len() ==> {
                let s = #[trigger] spec_proposers(g, d, n)[j];
                &&& g.spec_contains(s.0 as int, s.1 as int)
                &&& head_of(g, s.0 as int, s.1 as int) == Some(d)
                &&& rm_index(g.spec_width(), s.0 as int, s.1 as int) < n
            },
        forall|j1: int, j2: int|
            0 <= j1 < j2 < spec_proposers(g, d, n).len() ==> rm_index(
                g.spec_width(),
                #[trigger] spec_proposers(g, d, n)[j1].0 as int,
                spec_proposers(g, d, n)[j1].1 as int,
            ) < rm_index(
                g.spec_width(),
                #[trigger] spec_proposers(g, d, n)[j2].0 as int,
                spec_proposers(g, d, n)[j2].1 as int,
            ),
    decreases n,
{
    g.lemma_wf();
    if n > 0 {
        lemma_proposers_sound(g, d, n - 1);
        let w = g.spec_width();
        let h = g.spec_height();
        let sx = (n - 1) % w;
        let sy = (n - 1) / w;
        assert(n - 1 < w * h);
        assert(0 < w) by (nonlinear_arith)
            requires
                0 < n <= w * h,
                0 <= w,
                0 <= h,
        ;
        vstd::arithmetic::div_mod::lemma_fundamental_div_mod(n - 1, w);
        vstd::arithmetic::div_mod::lemma_mod_bound(n - 1, w);
        assert(0 <= sy && sy < h) by (nonlinear_arith)
            requires
                n - 1 == sy * w + sx,
                0 <= sx < w,
                0 <= n - 1 < w * h,
                0 < w,
        ;
        assert(rm_index(w, sx, sy) == n - 1);
    }
}

/// A source among the first `n` whose head is `d` appears among the
/// proposers of `d`.
pub proof fn lemma_proposers_complete(
    g: Grid<PotentialMoves>,
    d: (isize, isize),
    n: int,
    sx: int,
    sy: int,
)
    requires
        g.wf(),
        0 <= n <= g.spec_width() * g.spec_height(),
        g.spec_contains(sx, sy),
        rm_index(g.spec_width(), sx, sy) < n,
        head_of(g, sx, sy) == Some(d),
    ensures
        spec_proposers(g, d, n).contains((sx as isize, sy as isize)),
    decreases n,
{
    g.lemma_wf();
    let w = g.spec_width();
    let k = rm_index(w, sx, sy);
    lemma_rm_index(w, g.spec_height(), sx, sy);
    if k == n - 1 {
        assert((n - 1) % w == sx && (n - 1) / w == sy);
        let prev = spec_proposers(g, d, n - 1);
        assert(spec_proposers(g, d, n)[prev.len() as int] == (sx as isize, sy as isize));
    } else {
        lemma_proposers_complete(g, d, n - 1, sx, sy);
        let prev = spec_proposers(g, d, n - 1);
        let j = choose|j: int| 0 <= j < prev.len() && prev[j] == (sx as isize, sy as isize);
        assert(spec_proposers(g, d, n)[j] == (sx as isize, sy as isize));
    }
}

/// If no destination has two proposers over the whole grid, heads are
/// injective: distinct sources propose distinct destinations.
pub proof fn lemma_no_conflict_injective(
    g: Grid<PotentialMoves>,
    x1: int,
    y1: int,
    x2: int,
    y2: int,
)
    requires
        g.wf(),
        forall|d: (isize, isize)|
            0 <= d.0 < g.spec_width() && 0 <= d.1 < g.spec_height() ==> #[trigger] spec_proposers(
                g,
                d,
                g.spec_width() * g.spec_height(),
            ).len() <= 1,
        moves_wf(g),
        g.spec_contains(x1, y1),
        g.spec_contains(x2, y2),
        (x1, y1) != (x2, y2),
        head_of(g, x1, y1).is_some(),
    ensures
        head_of(g, x1, y1) != head_of(g, x2, y2),
{
    if head_of(g, x1, y1) == head_of(g, x2, y2) {
        g.lemma_wf();
        let w = g.spec_width();
        let h = g.spec_height();
        let n = w * h;
        let d = head_of(g, x1, y1)->Some_0;
        lemma_moves_wf_at(g, x1, y1);
        let p1 = g.spec_cell(x1, y1);
        assert(d == p1.spec_prefs()[p1.spec_current()]);
        assert(0 <= d.0 < w && 0 <= d.1 < h);
        lemma_rm_index(w, h, x1, y1);
        lemma_rm_index(w, h, x2, y2);
        lemma_proposers_complete(g, d, n, x1, y1);
        lemma_proposers_complete(g, d, n, x2, y2);
        let props = spec_proposers(g, d, n);
        let j1 = choose|j: int| 0 <= j < props.len() && props[j] == (x1 as isize, y1 as isize);
        let j2 = choose|j: int| 0 <= j < props.len() && props[j] == (x2 as isize, y2 as isize);
        assert(props.len() <= 1);
        assert(j1 == j2);
        assert((x1 as isize, y1 as isize) == (x2 as isize, y2 as isize));
    }
}

/// Index of the winning proposer among the first `i`: the proposer with
/// the highest position score for the destination; the latest-scanned
/// one wins ties.
pub open spec fn spec_winner_idx(
    basis: Grid<Tile>,
    config: Config,
    cands: Seq<(isize, isize)>,
    d: (isize, isize),
    i: int,
) -> int
    decreases i,
{
    if i <= 1 {
        0
    } else {
        let prev = spec_winner_idx(basis, config, cands, d, i - 1);
        if spec_position_score(
            basis,
            config,
            cands[i - 1].0 as int,
            cands[i - 1].1 as int,
            d.0 as int,
            d.1 as int,
        ) >= spec_position_score(
            basis,
            config,
            cands[prev].0 as int,
            cands[prev].1 as int,
            d.0 as int,
            d.1 as int,
        ) {
            i - 1
        } else {
            prev
        }
    }
}

/// The winning proposer of a conflicted destination.
pub open spec fn spec_winner(
    basis: Grid<Tile>,
    config: Config,
    cands: Seq<(isize, isize)>,
    d: (isize, isize),
) -> (isize, isize) {
    cands[spec_winner_idx(basis, config, cands, d, cands.len() as int)]
}

/// How often one resolution pass advances the cursor of the source at
/// `(sx, sy)`: once if its head destination is contested and it is not
/// the winner, not at all otherwise.
pub open spec fn spec_pop_count(
    g: Grid<PotentialMoves>,
    basis: Grid<Tile>,
    config: Config,
    sx: int,
    sy: int,
) -> int {
    match head_of(g, sx, sy) {
        None => 0,
        Some(d) => {
            let cands = spec_proposers(g, d, g.spec_width() * g.spec_height());
            if cands.len() <= 1 {
                0
            } else if (sx as isize, sy as isize) == spec_winner(basis, config, cands, d) {
                0
            } else {
                1
            }
        },
    }
}

/// Like `spec_pop_count`, but counting only destinations whose flat
/// index lies below `kbound` (the resolution pass scans row-major).
pub open spec fn spec_pop_count_upto(
    g: Grid<PotentialMoves>,
    basis: Grid<Tile>,
    config: Config,
    sx: int,
    sy: int,
    kbound: int,
) -> int {
    match head_of(g, sx, sy) {
        None => 0,
        Some(d) => if rm_index(g.spec_width(), d.0 as int, d.1 as int) < kbound {
            spec_pop_count(g, basis, config, sx, sy)
        } else {
            0
        },
    }
}

/// Some destination has two or more proposers.
pub open spec fn spec_has_conflict(g: Grid<PotentialMoves>) -> bool {
    exists|dx: int, dy: int|
        0 <= dx < g.spec_width() && 0 <= dy < g.spec_height() && #[trigger] spec_proposers(
            g,
            ((dx as isize, dy as isize)),
            g.spec_width() * g.spec_height(),
        ).len() > 1
}

/// Pick the winning proposer of the destination `(x, y)`.
fn pick_winner(
    scorer: &PairwiseTileScorer,
    config: &Config,
    cands: &Vec<(isize, isize)>,
    x: isize,
    y: isize,
) -> (best: usize)
    requires
        scorer.wf(),
        *config == scorer.spec_cfg(),
        cands@.len() >= 1,
        scorer.spec_basis().spec_contains(x as int, y as int),
        forall|j: int|
            0 <= j < cands@.len() ==> {
                let c = #[trigger] cands@[j];
                &&& scorer.spec_basis().spec_contains(c.0 as int, c.1 as int)
                &&& spec_chebyshev(c.0 as int, c.1 as int, x as int, y as int) <= 1
            },
    ensures
        best < cands@.len(),
        best == spec_winner_idx(
            scorer.spec_basis(),
            scorer.spec_cfg(),
            cands@,
            ((x, y)),
            cands@.len() as int,
        ),
{
    let ghost basis = scorer.spec_basis();
    let ghost cfg = scorer.spec_cfg();
    let c0 = cands[0];
    let mut best: usize = 0;
    let mut best_score: i64 = scorer.position_score(config, c0.0, c0.1, x, y);
    let mut j: usize = 1;
    while j < cands.len()
        invariant
            scorer.wf(),
            *config == scorer.spec_cfg(),
            basis == scorer.spec_basis(),
            cfg == scorer.spec_cfg(),
            cands@.len() >= 1,
            scorer.spec_basis().spec_contains(x as int, y as int),
            forall|j2: int|
                0 <= j2 < cands@.len() ==> {
                    let c = #[trigger] cands@[j2];
                    &&& scorer.spec_basis().spec_contains(c.0 as int, c.1 as int)
                    &&& spec_chebyshev(c.0 as int, c.1 as int, x as int, y as int) <= 1
                },
            1 <= j <= cands@.len(),
            best < j,
            best == spec_winner_idx(basis, cfg, cands@, ((x, y)), j as int),
            best_score == spec_position_score(
                basis,
                cfg,
                cands@[best as int].0 as int,
                cands@[best as int].1 as int,
                x as int,
                y as int,
            ),
        decreases cands@.len() - j,
    {
        let c = cands[j];
        let score = scorer.position_score(config, c.0, c.1, x, y);
        if score >= best_score {
            best = j;
            best_score = score;
        }
        j += 1;
    }
    best
}

/// Resolve one contested destination `(x, y)`: score every proposer,
/// keep the winner, advance every loser's cursor by one.  Returns how
/// many cursors were advanced (at least one).
fn resolve_destination(
    scorer: &PairwiseTileScorer,
    config: &Config,
    cands: &Vec<(isize, isize)>,
    x: usize,
    y: usize,
    potential_moves: &mut Grid<PotentialMoves>,
    oldpm: Ghost<Grid<PotentialMoves>>,
) -> (r: Ghost<int>)
    requires
        scorer.wf(),
        *config == scorer.spec_cfg(),
        moves_wf(oldpm@),
        oldpm@.spec_width() == scorer.spec_basis().spec_width(),
        oldpm@.spec_height() == scorer.spec_basis().spec_height(),
        x < oldpm@.spec_width(),
        y < oldpm@.spec_height(),
        cands@ == spec_proposers(
            oldpm@,
            ((x as isize, y as isize)),
            oldpm@.spec_width() * oldpm@.spec_height(),
        ),
        cands@.len() > 1,
        moves_wf(*old(potential_moves)),
        old(potential_moves).spec_width() == oldpm@.spec_width(),
        old(potential_moves).spec_height() == oldpm@.spec_height(),
        forall|x2: int, y2: int|
            0 <= x2 < oldpm@.spec_width() && 0 <= y2 < oldpm@.spec_height() ==> {
                let oldc = oldpm@.spec_cell(x2, y2);
                let newc = #[trigger] old(potential_moves).spec_cell(x2, y2);
                &&& newc.spec_prefs() == oldc.spec_prefs()
                &&& newc.spec_current() == oldc.spec_current() + spec_pop_count_upto(
                    oldpm@,
                    scorer.spec_basis(),
                    scorer.spec_cfg(),
                    x2,
                    y2,
                    rm_index(oldpm@.spec_width(), x as int, y as int),
                )
            },
    ensures
        moves_wf(*final (potential_moves)),
        final (potential_moves).spec_width() == oldpm@.spec_width(),
        final (potential_moves).spec_height() == oldpm@.spec_height(),
        forall|x2: int, y2: int|
            0 <= x2 < oldpm@.spec_width() && 0 <= y2 < oldpm@.spec_height() ==> {
                let oldc = oldpm@.spec_cell(x2, y2);
                let newc = #[trigger] final (potential_moves).spec_cell(x2, y2);
                &&& newc.spec_prefs() == oldc.spec_prefs()
                &&& newc.spec_current() == oldc.spec_current() + spec_pop_count_upto(
                    oldpm@,
                    scorer.spec_basis(),
                    scorer.spec_cfg(),
                    x2,
                    y2,
                    rm_index(oldpm@.spec_width(), x as int, y as int) + 1,
                )
            },
        r@ >= 1,
        spec_total_remaining(*final (potential_moves)) == spec_total_remaining(
            *old(potential_moves),
        ) - r@,
{
    let ghost basis = scorer.spec_basis();
    let ghost cfg = scorer.spec_cfg();
    let ghost gw = oldpm@.spec_width();
    let ghost gh = oldpm@.spec_height();
    let ghost nn = gw * gh;
    let ghost kk = rm_index(gw, x as int, y as int);
    let ghost dd = ((x as isize, y as isize));
    let ghost cands0 = cands@;
    proof {
        oldpm@.lemma_wf();
        lemma_rm_index(gw, gh, x as int, y as int);
        lemma_proposers_sound(oldpm@, dd, nn);
        assert forall|j: int| 0 <= j < cands@.len() implies {
            let cc = #[trigger] cands@[j];
            &&& basis.spec_contains(cc.0 as int, cc.1 as int)
            &&& spec_chebyshev(cc.0 as int, cc.1 as int, x as int, y as int) <= 1
        } by {
            let cc = cands@[j];
            lemma_moves_wf_at(oldpm@, cc.0 as int, cc.1 as int);
            let p = oldpm@.spec_cell(cc.0 as int, cc.1 as int);
            assert(p.spec_prefs()[p.spec_current()] == dd);
        }
    }
    let best = pick_winner(scorer, config, cands, x as isize, y as isize);
    let ghost wv = cands@[best as int];
    proof {
        assert(wv == spec_winner(basis, cfg, cands0, dd));
    }
    let ghost mut pops: int = 0;
    let ghost pm0 = *potential_moves;
    let mut j: usize = 0;
    while j < cands.len()
        invariant
            scorer.wf(),
            basis == scorer.spec_basis(),
            cfg == scorer.spec_cfg(),
            moves_wf(oldpm@),
            gw == oldpm@.spec_width(),
            gh == oldpm@.spec_height(),
            oldpm@.spec_cells().len() == gw * gh,
            0 <= gw <= crate::grid::MAX_EXTENT,
            0 <= gh <= crate::grid::MAX_EXTENT,
            nn == gw * gh,
            y < gh,
            x < gw,
            kk == rm_index(gw, x as int, y as int),
            dd == ((x as isize, y as isize)),
            cands@ == cands0,
            cands0 == spec_proposers(oldpm@, dd, nn),
            cands0.len() > 1,
            (best as int) < cands0.len(),
            wv == cands0[best as int],
            wv == spec_winner(basis, cfg, cands0, dd),
            forall|j2: int|
                0 <= j2 < cands0.len() ==> {
                    let s = #[trigger] cands0[j2];
                    &&& oldpm@.spec_contains(s.0 as int, s.1 as int)
                    &&& head_of(oldpm@, s.0 as int, s.1 as int) == Some(dd)
                    &&& rm_index(gw, s.0 as int, s.1 as int) < nn
                },
            forall|j1: int, j2: int|
                0 <= j1 < j2 < cands0.len() ==> rm_index(
                    gw,
                    #[trigger] cands0[j1].0 as int,
                    cands0[j1].1 as int,
                ) < rm_index(gw, #[trigger] cands0[j2].0 as int, cands0[j2].1 as int),
            j <= cands0.len(),
            moves_wf(*potential_moves),
            potential_moves.spec_width() == gw,
            potential_moves.spec_height() == gh,
            forall|x2: int, y2: int|
                0 <= x2 < gw && 0 <= y2 < gh ==> {
                    let oldc = oldpm@.spec_cell(x2, y2);
                    let newc = #[trigger] potential_moves.spec_cell(x2, y2);
                    &&& newc.spec_prefs() == oldc.spec_prefs()
                    &&& newc.spec_current() == oldc.spec_current() + spec_pop_count_upto(
                        oldpm@,
                        basis,
                        cfg,
                        x2,
                        y2,
                        kk,
                    ) + (if cands0.take(j as int).contains(((x2 as isize, y2 as isize))) && ((
                    x2 as isize,
                    y2 as isize,
                    )) != wv {
                        1int
                    } else {
                        0int
                    })
                },
            spec_total_remaining(*potential_moves) == spec_total_remaining(pm0) - pops,
            pops >= 1 || j == 0 || (j == 1 && best == 0),
            pops >= 0,
        decreases cands0.len() - j,
    {
        let s = cands[j];
        if j != best {
            proof {
                assert(!cands0.take(j as int).contains(s)) by {
                    if cands0.take(j as int).contains(s) {
                        let j0 = choose|j0: int| 0 <= j0 < j && cands0.take(j as int)[j0] == s;
                        assert(cands0[j0] == s);
                    }
                }
                assert(s != wv) by {
                    if s == wv {
                        assert(cands0[j as int] == cands0[best as int]);
                    }
                }
                lemma_moves_wf_at(oldpm@, s.0 as int, s.1 as int);
                assert(head_of(oldpm@, s.0 as int, s.1 as int) == Some(dd));
                assert(spec_pop_count_upto(oldpm@, basis, cfg, s.0 as int, s.1 as int, kk) == 0);
                lemma_rm_index(gw, gh, s.0 as int, s.1 as int);
            }
            let ghost pmpre = *potential_moves;
            let cell = match potential_moves.get_mut(s.0, s.1) {
                Some(cell) => cell,
                None => unreached(),
            };
            cell.pop();
            proof {
                pmpre.lemma_wf();
                let idx = rm_index(gw, s.0 as int, s.1 as int);
                let newc = potential_moves.spec_cells()[idx];
                assert(potential_moves.spec_cells() == pmpre.spec_cells().update(idx, newc));
                lemma_sum_remaining_update(pmpre.spec_cells(), idx, newc);
                pops = pops + 1;
                assert forall|k2: int|
                    0 <= k2 < potential_moves.spec_cells().len() implies #[trigger] pm_entry_wf(
                    *potential_moves,
                    k2,
                ) by {
                    assert(pm_entry_wf(pmpre, k2));
                    if k2 != idx {
                        assert(potential_moves.spec_cells()[k2] == pmpre.spec_cells()[k2]);
                    }
                }
                assert forall|x2: int, y2: int| 0 <= x2 < gw && 0 <= y2 < gh implies {
                    let oldc = oldpm@.spec_cell(x2, y2);
                    let newc2 = #[trigger] potential_moves.spec_cell(x2, y2);
                    &&& newc2.spec_prefs() == oldc.spec_prefs()
                    &&& newc2.spec_current() == oldc.spec_current() + spec_pop_count_upto(
                        oldpm@,
                        basis,
                        cfg,
                        x2,
                        y2,
                        kk,
                    ) + (if cands0.take(j as int + 1).contains(((x2 as isize, y2 as isize))) && ((
                    x2 as isize,
                    y2 as isize,
                    )) != wv {
                        1int
                    } else {
                        0int
                    })
                } by {
                    lemma_rm_index(gw, gh, x2, y2);
                    assert(cands0.take(j as int + 1) =~= cands0.take(j as int).push(s));
                    assert(cands0.take(j as int + 1)[j as int] == s);
                    assert(cands0.take(j as int + 1).contains(s));
                    let oldc = oldpm@.spec_cell(x2, y2);
                    let prec = pmpre.spec_cell(x2, y2);
                    assert(prec.spec_prefs() == oldc.spec_prefs());
                    if rm_index(gw, x2, y2) == idx {
                        lemma_rm_index_injective(gw, gh, x2, y2, s.0 as int, s.1 as int);
                        assert((x2 as isize, y2 as isize) == s);
                        assert(potential_moves.spec_cell(x2, y2) == newc);
                    } else {
                        assert(potential_moves.spec_cell(x2, y2) == pmpre.spec_cell(x2, y2));
                        if (x2 as isize, y2 as isize) == s {
                            assert(rm_index(gw, x2, y2) == idx);
                        }
                        assert(cands0.take(j as int + 1).contains(((x2 as isize, y2 as isize)))
                            == cands0.take(j as int).contains(((x2 as isize, y2 as isize))));
                    }
                }
            }
        } else {
            proof {
                assert(cands0.take(j as int + 1) =~= cands0.take(j as int).push(s));
            }
        }
        j += 1;
    }
    proof {
        assert(cands0.take(cands0.len() as int) =~= cands0);
        assert forall|x2: int, y2: int| 0 <= x2 < gw && 0 <= y2 < gh implies {
            let oldc = oldpm@.spec_cell(x2, y2);
            let newc = #[trigger] potential_moves.spec_cell(x2, y2);
            &&& newc.spec_prefs() == oldc.spec_prefs()
            &&& newc.spec_current() == oldc.spec_current() + spec_pop_count_upto(
                oldpm@,
                basis,
                cfg,
                x2,
                y2,
                kk + 1,
            )
        } by {
            step_upto(oldpm@, basis, cfg, x2, y2, kk, cands0, wv, gw, gh, dd, nn);
        }
    }
    Ghost(pops)
}

/// Resolve every contested destination: the proposer with the highest
/// position score keeps it, every other proposer advances to its next
/// choice.  Returns whether any destination was contested.
pub fn resolve_conflicts(
    scorer: &PairwiseTileScorer,
    config: &Config,
    conflicts: &Grid<MoveConflict>,
    potential_moves: &mut Grid<PotentialMoves>,
) -> (found: bool)
    requires
        scorer.wf(),
        *config == scorer.spec_cfg(),
        moves_wf(*old(potential_moves)),
        old(potential_moves).spec_width() == scorer.spec_basis().spec_width(),
        old(potential_moves).spec_height() == scorer.spec_basis().spec_height(),
        conflicts.wf(),
        conflicts.spec_width() == old(potential_moves).spec_width(),
        conflicts.spec_height() == old(potential_moves).spec_height(),
        forall|dx: int, dy: int|
            0 <= dx < conflicts.spec_width() && 0 <= dy < conflicts.spec_height()
                ==> (#[trigger] conflicts.spec_cell(dx, dy)).spec_candidates() == spec_proposers(
                *old(potential_moves),
                ((dx as isize, dy as isize)),
                conflicts.spec_width() * conflicts.spec_height(),
            ),
    ensures
        moves_wf(*final (potential_moves)),
        final (potential_moves).spec_width() == old(potential_moves).spec_width(),
        final (potential_moves).spec_height() == old(potential_moves).spec_height(),
        forall|x2: int, y2: int|
            0 <= x2 < old(potential_moves).spec_width() && 0 <= y2 < old(
                potential_moves,
            ).spec_height() ==> {
                let oldc = old(potential_moves).spec_cell(x2, y2);
                let newc = #[trigger] final (potential_moves).spec_cell(x2, y2);
                &&& newc.spec_prefs() == oldc.spec_prefs()
                &&& newc.spec_current() == oldc.spec_current() + spec_pop_count(
                    *old(potential_moves),
                    scorer.spec_basis(),
                    scorer.spec_cfg(),
                    x2,
                    y2,
                )
            },
        found == spec_has_conflict(*old(potential_moves)),
        found ==> spec_total_remaining(*final (potential_moves)) < spec_total_remaining(
            *old(potential_moves),
        ),
{
    let ghost oldpm = *potential_moves;
    let ghost basis = scorer.spec_basis();
    let ghost cfg = scorer.spec_cfg();
    let w = GridLike::width(potential_moves);
    let h = GridLike::height(potential_moves);
    let ghost gw = w as int;
    let ghost gh = h as int;
    let ghost nn = gw * gh;
    let mut found = false;
    let ghost mut pops: int = 0;
    proof {
        oldpm.lemma_wf();
        assert forall|x2: int, y2: int| 0 <= x2 < gw && 0 <= y2 < gh implies #[trigger]
            spec_pop_count_upto(oldpm, basis, cfg, x2, y2, 0) == 0 by {
            match head_of(oldpm, x2, y2) {
                Option::None => {},
                Option::Some(d2) => {
                    lemma_moves_wf_at(oldpm, x2, y2);
                    let p = oldpm.spec_cell(x2, y2);
                    assert(p.spec_prefs()[p.spec_current()] == d2);
                    lemma_rm_index(gw, gh, d2.0 as int, d2.1 as int);
                },
            }
        }
    }
    let mut y: usize = 0;
    while y < h
        invariant
            scorer.wf(),
            *config == scorer.spec_cfg(),
            basis == scorer.spec_basis(),
            cfg == scorer.spec_cfg(),
            moves_wf(oldpm),
            gw == oldpm.spec_width(),
            gh == oldpm.spec_height(),
            oldpm.spec_cells().len() == gw * gh,
            0 <= gw <= crate::grid::MAX_EXTENT,
            0 <= gh <= crate::grid::MAX_EXTENT,
            w == gw,
            h == gh,
            nn == gw * gh,
            gw == basis.spec_width(),
            gh == basis.spec_height(),
            conflicts.wf(),
            conflicts.spec_width() == gw,
            conflicts.spec_height() == gh,
            forall|dx: int, dy: int|
                0 <= dx < gw && 0 <= dy < gh ==> (#[trigger] conflicts.spec_cell(
                    dx,
                    dy,
                )).spec_candidates() == spec_proposers(oldpm, ((dx as isize, dy as isize)), nn),
            y <= h,
            moves_wf(*potential_moves),
            potential_moves.spec_width() == gw,
            potential_moves.spec_height() == gh,
            forall|x2: int, y2: int|
                0 <= x2 < gw && 0 <= y2 < gh ==> {
                    let oldc = oldpm.spec_cell(x2, y2);
                    let newc = #[trigger] potential_moves.spec_cell(x2, y2);
                    &&& newc.spec_prefs() == oldc.spec_prefs()
                    &&& newc.spec_current() == oldc.spec_current() + spec_pop_count_upto(
                        oldpm,
                        basis,
                        cfg,
                        x2,
                        y2,
                        y as int * gw,
                    )
                },
            found == (exists|dx: int, dy: int|
                0 <= dx < gw && 0 <= dy < gh && rm_index(gw, dx, dy) < y as int * gw
                    && #[trigger] spec_proposers(oldpm, ((dx as isize, dy as isize)), nn).len()
                    > 1),
            spec_total_remaining(*potential_moves) == spec_total_remaining(oldpm) - pops,
            found ==> pops >= 1,
            pops >= 0,
        decreases gh - y,
    {
        let mut x: usize = 0;
        while x < w
            invariant
                scorer.wf(),
                *config == scorer.spec_cfg(),
                basis == scorer.spec_basis(),
                cfg == scorer.spec_cfg(),
                moves_wf(oldpm),
                gw == oldpm.spec_width(),
                gh == oldpm.spec_height(),
                oldpm.spec_cells().len() == gw * gh,
                0 <= gw <= crate::grid::MAX_EXTENT,
                0 <= gh <= crate::grid::MAX_EXTENT,
                w == gw,
                h == gh,
                nn == gw * gh,
                gw == basis.spec_width(),
                gh == basis.spec_height(),
                conflicts.wf(),
                conflicts.spec_width() == gw,
                conflicts.spec_height() == gh,
                forall|dx: int, dy: int|
                    0 <= dx < gw && 0 <= dy < gh ==> (#[trigger] conflicts.spec_cell(
                        dx,
                        dy,
                    )).spec_candidates() == spec_proposers(
                        oldpm,
                        ((dx as isize, dy as isize)),
                        nn,
                    ),
                y < gh,
                x <= w,
                moves_wf(*potential_moves),
                potential_moves.spec_width() == gw,
                potential_moves.spec_height() == gh,
                forall|x2: int, y2: int|
                    0 <= x2 < gw && 0 <= y2 < gh ==> {
                        let oldc = oldpm.spec_cell(x2, y2);
                        let newc = #[trigger] potential_moves.spec_cell(x2, y2);
                        &&& newc.spec_prefs() == oldc.spec_prefs()
                        &&& newc.spec_current() == oldc.spec_current() + spec_pop_count_upto(
                            oldpm,
                            basis,
                            cfg,
                            x2,
                            y2,
                            y as int * gw + x as int,
                        )
                    },
                found == (exists|dx: int, dy: int|
                    0 <= dx < gw && 0 <= dy < gh && rm_index(gw, dx, dy) < y as int * gw
                        + x as int && #[trigger] spec_proposers(
                        oldpm,
                        ((dx as isize, dy as isize)),
                        nn,
                    ).len() > 1),
                spec_total_remaining(*potential_moves) == spec_total_remaining(oldpm) - pops,
                found ==> pops >= 1,
                pops >= 0,
            decreases gw - x,
        {
            let ghost kk = y as int * gw + x as int;
            let ghost dd = ((x as isize, y as isize));
            proof {
                lemma_rm_index(gw, gh, x as int, y as int);
            }
            let c = match GridLike::get(conflicts, x as isize, y as isize) {
                Some(c) => c,
                None => unreached(),
            };
            let cands = c.candidates();
            if cands.len() > 1 {
                found = true;
                let r = resolve_destination(
                    scorer,
                    config,
                    cands,
                    x,
                    y,
                    potential_moves,
                    Ghost(oldpm),
                );
                proof {
                    pops = pops + r@;
                    assert(rm_index(gw, x as int, y as int) < kk + 1);
                    assert(spec_proposers(oldpm, dd, nn).len() > 1);
                }
            } else {
                proof {
                    assert forall|x2: int, y2: int| 0 <= x2 < gw && 0 <= y2 < gh implies {
                        let oldc = oldpm.spec_cell(x2, y2);
                        let newc = #[trigger] potential_moves.spec_cell(x2, y2);
                        &&& newc.spec_prefs() == oldc.spec_prefs()
                        &&& newc.spec_current() == oldc.spec_current() + spec_pop_count_upto(
                            oldpm,
                            basis,
                            cfg,
                            x2,
                            y2,
                            kk + 1,
                        )
                    } by {
                        step_upto_quiet(oldpm, basis, cfg, x2, y2, kk, gw, gh, dd, nn);
                    }
                    if !found {
                        assert forall|dx: int, dy: int|
                            0 <= dx < gw && 0 <= dy < gh && rm_index(gw, dx, dy) < kk + 1
                                implies !(#[trigger] spec_proposers(
                            oldpm,
                            ((dx as isize, dy as isize)),
                            nn,
                        ).len() > 1) by {
                            if rm_index(gw, dx, dy) == kk {
                                lemma_rm_index_injective(gw, gh, dx, dy, x as int, y as int);
                            }
                        }
                    }
                }
            }
            x += 1;
        }
        y += 1;
        proof {
            assert(y as int * gw == (y as int - 1) * gw + gw) by (nonlinear_arith);
        }
    }
    proof {
        assert forall|x2: int, y2: int| 0 <= x2 < gw && 0 <= y2 < gh implies #[trigger]
            spec_pop_count_upto(oldpm, basis, cfg, x2, y2, gh * gw) == spec_pop_count(
            oldpm,
            basis,
            cfg,
            x2,
            y2,
        ) by {
            match head_of(oldpm, x2, y2) {
                Option::None => {},
                Option::Some(d2) => {
                    lemma_moves_wf_at(oldpm, x2, y2);
                    let p = oldpm.spec_cell(x2, y2);
                    assert(p.spec_prefs()[p.spec_current()] == d2);
                    lemma_rm_index(gw, gh, d2.0 as int, d2.1 as int);
                    assert(gh * gw == gw * gh) by (nonlinear_arith);
                },
            }
        }
        assert(gh * gw == gw * gh) by (nonlinear_arith);
        if !found {
            assert forall|dx: int, dy: int| 0 <= dx < gw && 0 <= dy < gh implies !(
            #[trigger] spec_proposers(oldpm, ((dx as isize, dy as isize)), nn).len() > 1) by {
                lemma_rm_index(gw, gh, dx, dy);
            }
        }
        if found {
            assert forall|j2: int|
                0 <= j2 < potential_moves.spec_cells().len() implies (#[trigger]
            potential_moves.spec_cells()[j2]).wf() by {
                assert(pm_entry_wf(*potential_moves, j2));
            }
            lemma_sum_remaining_nonneg(potential_moves.spec_cells());
        }
    }
    found
}

/// One destination step of the cursor bookkeeping, contested case: once
/// the destination at flat index `kk` with proposers `cands0` (more than
/// one) and winner `wv` has been processed, the popped-so-far count of
/// every source matches the bound `kk + 1`.
proof fn step_upto(
    oldpm: Grid<PotentialMoves>,
    basis: Grid<Tile>,
    cfg: Config,
    x2: int,
    y2: int,
    kk: int,
    cands0: Seq<(isize, isize)>,
    wv: (isize, isize),
    gw: int,
    gh: int,
    dd: (isize, isize),
    nn: int,
)
    requires
        moves_wf(oldpm),
        gw == oldpm.spec_width(),
        gh == oldpm.spec_height(),
        nn == gw * gh,
        0 <= x2 < gw,
        0 <= y2 < gh,
        0 <= dd.0 < gw,
        0 <= dd.1 < gh,
        kk == rm_index(gw, dd.0 as int, dd.1 as int),
        cands0 == spec_proposers(oldpm, dd, nn),
        cands0.len() > 1,
        wv == spec_winner(basis, cfg, cands0, dd),
    ensures
        spec_pop_count_upto(oldpm, basis, cfg, x2, y2, kk + 1) == spec_pop_count_upto(
            oldpm,
            basis,
            cfg,
            x2,
            y2,
            kk,
        ) + (if cands0.contains(((x2 as isize, y2 as isize))) && ((x2 as isize, y2 as isize))
            != wv {
            1int
        } else {
            0int
        }),
{
    oldpm.lemma_wf();
    lemma_proposers_sound(oldpm, dd, nn);
    match head_of(oldpm, x2, y2) {
        Option::None => {
            if cands0.contains((x2 as isize, y2 as isize)) {
                let j = choose|j: int|
                    0 <= j < cands0.len() && cands0[j] == (x2 as isize, y2 as isize);
                let sj = cands0[j];
                assert(head_of(oldpm, sj.0 as int, sj.1 as int) == Some(dd));
            }
        },
        Option::Some(d2) => {
            lemma_moves_wf_at(oldpm, x2, y2);
            let p = oldpm.spec_cell(x2, y2);
            assert(p.spec_prefs()[p.spec_current()] == d2);
            lemma_rm_index(gw, gh, d2.0 as int, d2.1 as int);
            lemma_rm_index(gw, gh, x2, y2);
            if d2 == dd {
                assert(rm_index(gw, d2.0 as int, d2.1 as int) == kk);
                lemma_proposers_complete(oldpm, dd, nn, x2, y2);
                assert(spec_pop_count(oldpm, basis, cfg, x2, y2) == (if ((
                x2 as isize,
                y2 as isize,
                )) != wv {
                    1int
                } else {
                    0int
                }));
            } else {
                if rm_index(gw, d2.0 as int, d2.1 as int) == kk {
                    lemma_rm_index_injective(
                        gw,
                        gh,
                        d2.0 as int,
                        d2.1 as int,
                        dd.0 as int,
                        dd.1 as int,
                    );
                }
                assert(rm_index(gw, d2.0 as int, d2.1 as int) != kk);
                if cands0.contains((x2 as isize, y2 as isize)) {
                    let j = choose|j: int|
                        0 <= j < cands0.len() && cands0[j] == (x2 as isize, y2 as isize);
                    let sj = cands0[j];
                    assert(head_of(oldpm, sj.0 as int, sj.1 as int) == Some(dd));
                }
            }
        },
    }
}

/// One destination step of the cursor bookkeeping, uncontested case.
proof fn step_upto_quiet(
    oldpm: Grid<PotentialMoves>,
    basis: Grid<Tile>,
    cfg: Config,
    x2: int,
    y2: int,
    kk: int,
    gw: int,
    gh: int,
    dd: (isize, isize),
    nn: int,
)
    requires
        moves_wf(oldpm),
        gw == oldpm.spec_width(),
        gh == oldpm.spec_height(),
        nn == gw * gh,
        0 <= x2 < gw,
        0 <= y2 < gh,
        0 <= dd.0 < gw,
        0 <= dd.1 < gh,
        kk == rm_index(gw, dd.0 as int, dd.1 as int),
        spec_proposers(oldpm, dd, nn).len() <= 1,
    ensures
        spec_pop_count_upto(oldpm, basis, cfg, x2, y2, kk + 1) == spec_pop_count_upto(
            oldpm,
            basis,
            cfg,
            x2,
            y2,
            kk,
        ),
{
    oldpm.lemma_wf();
    match head_of(oldpm, x2, y2) {
        Option::None => {},
        Option::Some(d2) => {
            lemma_moves_wf_at(oldpm, x2, y2);
            let p = oldpm.spec_cell(x2, y2);
            assert(p.spec_prefs()[p.spec_current()] == d2);
            lemma_rm_index(gw, gh, d2.0 as int, d2.1 as int);
            if d2 == dd {
                assert(spec_pop_count(oldpm, basis, cfg, x2, y2) == 0);
            } else {
                if rm_index(gw, d2.0 as int, d2.1 as int) == kk {
                    lemma_rm_index_injective(
                        gw,
                        gh,
                        d2.0 as int,
                        d2.1 as int,
                        dd.0 as int,
                        dd.1 as int,
                    );
                }
            }
        },
    }
}

/// Record, for every destination, which sources currently propose it.
fn build_conflicts(potential_moves: &Grid<PotentialMoves>) -> (conflicts: Grid<MoveConflict>)
    requires
        moves_wf(*potential_moves),
    ensures
        conflicts.wf(),
        conflicts.spec_width() == potential_moves.spec_width(),
        conflicts.spec_height() == potential_moves.spec_height(),
        forall|dx: int, dy: int|
            0 <= dx < conflicts.spec_width() && 0 <= dy < conflicts.spec_height()
                ==> (#[trigger] conflicts.spec_cell(dx, dy)).spec_candidates() == spec_proposers(
                *potential_moves,
                ((dx as isize, dy as isize)),
                conflicts.spec_width() * conflicts.spec_height(),
            ),
{
    let ghost gw = potential_moves.spec_width();
    let ghost gh = potential_moves.spec_height();
    let ghost nn = gw * gh;
    proof {
        potential_moves.lemma_wf();
    }
    let w = GridLike::width(potential_moves);
    let h = GridLike::height(potential_moves);
    let empty = |cx: usize, cy: usize| -> (r: MoveConflict)
        ensures
            r.spec_candidates().len() == 0,
        { MoveConflict::new() };
    let mut conflicts: Grid<MoveConflict> = Grid::new(w, h, empty);
    let mut y: usize = 0;
    proof {
        assert forall|dx: int, dy: int| 0 <= dx < gw && 0 <= dy < gh implies (
        #[trigger] conflicts.spec_cell(dx, dy)).spec_candidates() == spec_proposers(
            *potential_moves,
            ((dx as isize, dy as isize)),
            0,
        ) by {
            assert(conflicts.spec_cell(dx, dy).spec_candidates() =~= Seq::<(isize, isize)>::empty());
        }
    }
    while y < h
        invariant
            moves_wf(*potential_moves),
            gw == potential_moves.spec_width(),
            gh == potential_moves.spec_height(),
            0 <= gw <= crate::grid::MAX_EXTENT,
            0 <= gh <= crate::grid::MAX_EXTENT,
            potential_moves.spec_cells().len() == gw * gh,
            w == gw,
            h == gh,
            nn == gw * gh,
            y <= h,
            conflicts.wf(),
            conflicts.spec_width() == gw,
            conflicts.spec_height() == gh,
            forall|dx: int, dy: int|
                0 <= dx < gw && 0 <= dy < gh ==> (#[trigger] conflicts.spec_cell(
                    dx,
                    dy,
                )).spec_candidates() == spec_proposers(
                    *potential_moves,
                    ((dx as isize, dy as isize)),
                    y as int * gw,
                ),
        decreases gh - y,
    {
        let mut x: usize = 0;
        while x < w
            invariant
                moves_wf(*potential_moves),
                gw == potential_moves.spec_width(),
                gh == potential_moves.spec_height(),
                0 <= gw <= crate::grid::MAX_EXTENT,
                0 <= gh <= crate::grid::MAX_EXTENT,
                potential_moves.spec_cells().len() == gw * gh,
                w == gw,
                h == gh,
                nn == gw * gh,
                y < gh,
                x <= w,
                conflicts.wf(),
                conflicts.spec_width() == gw,
                conflicts.spec_height() == gh,
                forall|dx: int, dy: int|
                    0 <= dx < gw && 0 <= dy < gh ==> (#[trigger] conflicts.spec_cell(
                        dx,
                        dy,
                    )).spec_candidates() == spec_proposers(
                        *potential_moves,
                        ((dx as isize, dy as isize)),
                        y as int * gw + x as int,
                    ),
            decreases gw - x,
        {
            let ghost kk = y as int * gw + x as int;
            proof {
                lemma_rm_index(gw, gh, x as int, y as int);
                lemma_moves_wf_at(*potential_moves, x as int, y as int);
            }
            let p = match GridLike::get(potential_moves, x as isize, y as isize) {
                Some(p) => p,
                None => unreached(),
            };
            match p.current() {
                Some(d) => {
                    proof {
                        let pc = potential_moves.spec_cell(x as int, y as int);
                        assert(pc.spec_prefs()[pc.spec_current()] == d);
                        lemma_rm_index(gw, gh, d.0 as int, d.1 as int);
                        lemma_proposers_sound(
                            *potential_moves,
                            d,
                            kk,
                        );
                    }
                    let ghost cpre = conflicts;
                    let c = match conflicts.get_mut(d.0, d.1) {
                        Some(c) => c,
                        None => unreached(),
                    };
                    c.push_move((x as isize, y as isize));
                    proof {
                        cpre.lemma_wf();
                        let idx = rm_index(gw, d.0 as int, d.1 as int);
                        assert forall|dx: int, dy: int| 0 <= dx < gw && 0 <= dy < gh implies (
                        #[trigger] conflicts.spec_cell(dx, dy)).spec_candidates()
                            == spec_proposers(
                            *potential_moves,
                            ((dx as isize, dy as isize)),
                            kk + 1,
                        ) by {
                            lemma_rm_index(gw, gh, dx, dy);
                            assert((kk + 1 - 1) % gw == x as int && (kk + 1 - 1) / gw
                                == y as int);
                            if rm_index(gw, dx, dy) == idx {
                                lemma_rm_index_injective(gw, gh, dx, dy, d.0 as int, d.1 as int);
                                assert((dx as isize, dy as isize) == d);
                            } else {
                                assert(conflicts.spec_cell(dx, dy) == cpre.spec_cell(dx, dy));
                                if (dx as isize, dy as isize) == d {
                                    assert(rm_index(gw, dx, dy) == idx);
                                }
                            }
                        }
                    }
                },
                None => {
                    proof {
                        assert forall|dx: int, dy: int| 0 <= dx < gw && 0 <= dy < gh implies (
                        #[trigger] conflicts.spec_cell(dx, dy)).spec_candidates()
                            == spec_proposers(
                            *potential_moves,
                            ((dx as isize, dy as isize)),
                            kk + 1,
                        ) by {
                            assert((kk + 1 - 1) % gw == x as int && (kk + 1 - 1) / gw
                                == y as int);
                        }
                    }
                },
            }
            x += 1;
        }
        y += 1;
        proof {
            assert(y as int * gw == (y as int - 1) * gw + gw) by (nonlinear_arith);
        }
    }
    proof {
        assert(gh * gw == gw * gh) by (nonlinear_arith);
    }
    conflicts
}

/// Count of present values among the first `k` entries.
pub open spec fn count_some_upto(s: Seq<Option<(isize, isize)>>, k: int) -> int
    decreases k,
{
    if k <= 0 {
        0
    } else {
        count_some_upto(s, k - 1) + (if s[k - 1].is_some() {
            1int
        } else {
            0int
        })
    }
}

/// Replacing one entry changes a prefix count only when the entry lies
/// within the prefix, and then by the difference of presence.
proof fn lemma_count_some_update(
    s: Seq<Option<(isize, isize)>>,
    i: int,
    v: Option<(isize, isize)>,
    k: int,
)
    requires
        0 <= i < s.len(),
        k <= s.len(),
    ensures
        count_some_upto(s.update(i, v), k) == count_some_upto(s, k) + (if 0 <= i < k {
            (if v.is_some() {
                1int
            } else {
                0int
            }) - (if s[i].is_some() {
                1int
            } else {
                0int
            })
        } else {
            0int
        }),
    decreases k,
{
    if k > 0 {
        lemma_count_some_update(s, i, v, k - 1);
    }
}

/// Some destination cell of the permutation grid names this source.
pub open spec fn appears(r: Grid<(isize, isize)>, sx: int, sy: int) -> bool {
    exists|dx: int, dy: int|
        0 <= dx < r.spec_width() && 0 <= dy < r.spec_height() && #[trigger] r.spec_cell(dx, dy)
            == ((sx as isize, sy as isize))
}

/// Every source's current head names a distinct destination.
pub open spec fn heads_injective(g: Grid<PotentialMoves>) -> bool {
    forall|x1: int, y1: int, x2: int, y2: int|
        g.spec_contains(x1, y1) && g.spec_contains(x2, y2) && (x1, y1) != (x2, y2) && (
        #[trigger] head_of(g, x1, y1)).is_some() ==> head_of(g, x1, y1) != #[trigger] head_of(
            g,
            x2,
            y2,
        )
}

/// Turn conflict-free heads into a full destination-to-source
/// permutation: every source that still holds a head gets it; every
/// orphan is assigned the nearest destination that nobody claimed
/// (squared Euclidean distance, ties to the lowest row-major free cell,
/// orphans processed in row-major order).
fn build_permutation(potential_moves: &Grid<PotentialMoves>) -> (r: Grid<(isize, isize)>)
    requires
        moves_wf(*potential_moves),
        heads_injective(*potential_moves),
    ensures
        r.wf(),
        r.spec_width() == potential_moves.spec_width(),
        r.spec_height() == potential_moves.spec_height(),
        forall|dx: int, dy: int|
            0 <= dx < r.spec_width() && 0 <= dy < r.spec_height() ==> {
                let s = #[trigger] r.spec_cell(dx, dy);
                0 <= s.0 < r.spec_width() && 0 <= s.1 < r.spec_height()
            },
        forall|x1: int, y1: int, x2: int, y2: int|
            0 <= x1 < r.spec_width() && 0 <= y1 < r.spec_height() && 0 <= x2 < r.spec_width() && 0
                <= y2 < r.spec_height() && (x1, y1) != (x2, y2) ==> #[trigger] r.spec_cell(x1, y1)
                != #[trigger] r.spec_cell(x2, y2),
        forall|sx: int, sy: int|
            0 <= sx < r.spec_width() && 0 <= sy < r.spec_height() ==> #[trigger] appears(
                r,
                sx,
                sy,
            ),
        forall|sx: int, sy: int|
            0 <= sx < potential_moves.spec_width() && 0 <= sy < potential_moves.spec_height() && (
            #[trigger] head_of(*potential_moves, sx, sy)).is_some() ==> {
                let d = head_of(*potential_moves, sx, sy)->Some_0;
                r.spec_cell(d.0 as int, d.1 as int) == ((sx as isize, sy as isize))
            },
{
    let ghost pm = *potential_moves;
    let ghost gw = pm.spec_width();
    let ghost gh = pm.spec_height();
    let ghost nn = gw * gh;
    proof {
        pm.lemma_wf();
    }
    let w = GridLike::width(potential_moves);
    let h = GridLike::height(potential_moves);
    proof {
        assert(gw * gh <= 4096 * 4096) by (nonlinear_arith)
            requires
                0 <= gw <= 4096,
                0 <= gh <= 4096,
        ;
    }
    let total: usize = w * h;
    let mut blank: Vec<Option<(isize, isize)>> = Vec::new();
    let mut i0: usize = 0;
    while i0 < total
        invariant
            i0 <= total,
            blank@.len() == i0,
            forall|i: int| 0 <= i < i0 ==> (#[trigger] blank@[i]).is_none(),
        decreases total - i0,
    {
        blank.push(None);
        i0 += 1;
    }
    let mut result: Grid<Option<(isize, isize)>> = Grid::from_cells(w, h, blank);
    let mut orphans: Vec<(isize, isize)> = Vec::new();
    let ghost mut wmap: Map<(int, int), (int, int)> = Map::empty();
    proof {
        lemma_count_zero(result.spec_cells(), nn);
        assert forall|dx: int, dy: int| 0 <= dx < gw && 0 <= dy < gh implies (
        #[trigger] result.spec_cell(dx, dy)).is_none() by {
            lemma_rm_index(gw, gh, dx, dy);
        }
    }
    let mut y: usize = 0;
    while y < h
        invariant
            moves_wf(pm),
            heads_injective(pm),
            potential_moves == pm,
            gw == pm.spec_width(),
            gh == pm.spec_height(),
            0 <= gw <= crate::grid::MAX_EXTENT,
            0 <= gh <= crate::grid::MAX_EXTENT,
            pm.spec_cells().len() == gw * gh,
            w == gw,
            h == gh,
            nn == gw * gh,
            y <= h,
            result.wf(),
            result.spec_width() == gw,
            result.spec_height() == gh,
            result.spec_cells().len() == gw * gh,
            // every filled destination is ledgered and claimed by a processed source
            forall|dx: int, dy: int|
                0 <= dx < gw && 0 <= dy < gh ==> match #[trigger] result.spec_cell(dx, dy) {
                    Option::Some(s) => {
                        &&& 0 <= s.0 < gw
                        &&& 0 <= s.1 < gh
                        &&& rm_index(gw, s.0 as int, s.1 as int) < y as int * gw
                        &&& head_of(pm, s.0 as int, s.1 as int) == Some(
                            ((dx as isize, dy as isize)),
                        )
                        &&& wmap.contains_key(((s.0 as int, s.1 as int)))
                        &&& wmap[((s.0 as int, s.1 as int))] == ((dx, dy))
                    },
                    Option::None => true,
                },
            // the ledger points back at its cell
            forall|sk: (int, int)|
                #[trigger] wmap.contains_key(sk) ==> {
                    &&& 0 <= sk.0 < gw
                    &&& 0 <= sk.1 < gh
                    &&& rm_index(gw, sk.0, sk.1) < y as int * gw
                    &&& head_of(pm, sk.0, sk.1).is_some()
                    &&& 0 <= wmap[sk].0 < gw
                    &&& 0 <= wmap[sk].1 < gh
                    &&& result.spec_cell(wmap[sk].0, wmap[sk].1) == Some(
                        ((sk.0 as isize, sk.1 as isize)),
                    )
                },
            // every processed source is ledgered or collected as orphan
            forall|sx: int, sy: int|
                0 <= sx < gw && 0 <= sy < gh && rm_index(gw, sx, sy) < y as int * gw ==> {
                    if (#[trigger] head_of(pm, sx, sy)).is_some() {
                        wmap.contains_key(((sx, sy)))
                    } else {
                        orphans@.contains(((sx as isize, sy as isize)))
                    }
                },
            // orphans are processed sources without heads, in scan order
            forall|j: int|
                0 <= j < orphans@.len() ==> {
                    let s = #[trigger] orphans@[j];
                    &&& 0 <= s.0 < gw
                    &&& 0 <= s.1 < gh
                    &&& rm_index(gw, s.0 as int, s.1 as int) < y as int * gw
                    &&& head_of(pm, s.0 as int, s.1 as int).is_none()
                },
            forall|j1: int, j2: int|
                0 <= j1 < j2 < orphans@.len() ==> rm_index(
                    gw,
                    #[trigger] orphans@[j1].0 as int,
                    orphans@[j1].1 as int,
                ) < rm_index(gw, #[trigger] orphans@[j2].0 as int, orphans@[j2].1 as int),
            count_some_upto(result.spec_cells(), nn) == y as int * gw - orphans@.len(),
            orphans@.len() <= y as int * gw,
        decreases gh - y,
    {
        let mut x: usize = 0;
        while x < w
            invariant
                moves_wf(pm),
                heads_injective(pm),
                potential_moves == pm,
                gw == pm.spec_width(),
                gh == pm.spec_height(),
                0 <= gw <= crate::grid::MAX_EXTENT,
                0 <= gh <= crate::grid::MAX_EXTENT,
                pm.spec_cells().len() == gw * gh,
                w == gw,
                h == gh,
                nn == gw * gh,
                y < gh,
                x <= w,
                result.wf(),
                result.spec_width() == gw,
                result.spec_height() == gh,
                result.spec_cells().len() == gw * gh,
                forall|dx: int, dy: int|
                    0 <= dx < gw && 0 <= dy < gh ==> match #[trigger] result.spec_cell(dx, dy) {
                        Option::Some(s) => {
                            &&& 0 <= s.0 < gw
                            &&& 0 <= s.1 < gh
                            &&& rm_index(gw, s.0 as int, s.1 as int) < y as int * gw + x as int
                            &&& head_of(pm, s.0 as int, s.1 as int) == Some(
                                ((dx as isize, dy as isize)),
                            )
                            &&& wmap.contains_key(((s.0 as int, s.1 as int)))
                            &&& wmap[((s.0 as int, s.1 as int))] == ((dx, dy))
                        },
                        Option::None => true,
                    },
                forall|sk: (int, int)|
                    #[trigger] wmap.contains_key(sk) ==> {
                        &&& 0 <= sk.0 < gw
                        &&& 0 <= sk.1 < gh
                        &&& rm_index(gw, sk.0, sk.1) < y as int * gw + x as int
                        &&& head_of(pm, sk.0, sk.1).is_some()
                        &&& 0 <= wmap[sk].0 < gw
                        &&& 0 <= wmap[sk].1 < gh
                        &&& result.spec_cell(wmap[sk].0, wmap[sk].1) == Some(
                            ((sk.0 as isize, sk.1 as isize)),
                        )
                    },
                forall|sx: int, sy: int|
                    0 <= sx < gw && 0 <= sy < gh && rm_index(gw, sx, sy) < y as int * gw
                        + x as int ==> {
                        if (#[trigger] head_of(pm, sx, sy)).is_some() {
                            wmap.contains_key(((sx, sy)))
                        } else {
                            orphans@.contains(((sx as isize, sy as isize)))
                        }
                    },
                forall|j: int|
                    0 <= j < orphans@.len() ==> {
                        let s = #[trigger] orphans@[j];
                        &&& 0 <= s.0 < gw
                        &&& 0 <= s.1 < gh
                        &&& rm_index(gw, s.0 as int, s.1 as int) < y as int * gw + x as int
                        &&& head_of(pm, s.0 as int, s.1 as int).is_none()
                    },
                forall|j1: int, j2: int|
                    0 <= j1 < j2 < orphans@.len() ==> rm_index(
                        gw,
                        #[trigger] orphans@[j1].0 as int,
                        orphans@[j1].1 as int,
                    ) < rm_index(gw, #[trigger] orphans@[j2].0 as int, orphans@[j2].1 as int),
                count_some_upto(result.spec_cells(), nn) == y as int * gw + x as int
                    - orphans@.len(),
                orphans@.len() <= y as int * gw + x as int,
            decreases gw - x,
        {
            let ghost kk = y as int * gw + x as int;
            let ghost opre = orphans@;
            let ghost wmappre = wmap;
            proof {
                lemma_rm_index(gw, gh, x as int, y as int);
                lemma_moves_wf_at(pm, x as int, y as int);
            }
            let p = match GridLike::get(potential_moves, x as isize, y as isize) {
                Some(p) => p,
                None => unreached(),
            };
            match p.current() {
                Some(d) => {
                    proof {
                        let pc = pm.spec_cell(x as int, y as int);
                        assert(pc.spec_prefs()[pc.spec_current()] == d);
                        lemma_rm_index(gw, gh, d.0 as int, d.1 as int);
                        // the destination cell is still free: a prior claimant
                        // would share our head, contradicting injectivity
                        match result.spec_cell(d.0 as int, d.1 as int) {
                            Option::Some(s2) => {
                                assert(head_of(pm, s2.0 as int, s2.1 as int) == Some(d));
                                assert(head_of(pm, x as int, y as int) == Some(d));
                                assert(rm_index(gw, s2.0 as int, s2.1 as int) < kk);
                                assert((s2.0 as int, s2.1 as int) != (x as int, y as int));
                            },
                            Option::None => {},
                        }
                    }
                    let ghost rpre = result;
                    result.set(d.0 as usize, d.1 as usize, Some((x as isize, y as isize)));
                    proof {
                        let idx = rm_index(gw, d.0 as int, d.1 as int);
                        lemma_count_some_update(
                            rpre.spec_cells(),
                            idx,
                            Some(((x as isize, y as isize))),
                            nn,
                        );
                        wmap = wmap.insert(((x as int, y as int)), ((d.0 as int, d.1 as int)));
                        assert forall|dx: int, dy: int| 0 <= dx < gw && 0 <= dy < gh implies
                            match #[trigger] result.spec_cell(dx, dy) {
                            Option::Some(s) => {
                                &&& 0 <= s.0 < gw
                                &&& 0 <= s.1 < gh
                                &&& rm_index(gw, s.0 as int, s.1 as int) < kk + 1
                                &&& head_of(pm, s.0 as int, s.1 as int) == Some(
                                    ((dx as isize, dy as isize)),
                                )
                                &&& wmap.contains_key(((s.0 as int, s.1 as int)))
                                &&& wmap[((s.0 as int, s.1 as int))] == ((dx, dy))
                            },
                            Option::None => true,
                        } by {
                            lemma_rm_index(gw, gh, dx, dy);
                            if rm_index(gw, dx, dy) == idx {
                                lemma_rm_index_injective(gw, gh, dx, dy, d.0 as int, d.1 as int);
                            } else {
                                assert(result.spec_cell(dx, dy) == rpre.spec_cell(dx, dy));
                                match rpre.spec_cell(dx, dy) {
                                    Option::Some(s) => {
                                        assert((s.0 as int, s.1 as int) != (x as int, y as int));
                                    },
                                    Option::None => {},
                                }
                            }
                        }
                        assert forall|sk: (int, int)| #[trigger] wmap.contains_key(sk) implies {
                            &&& 0 <= sk.0 < gw
                            &&& 0 <= sk.1 < gh
                            &&& rm_index(gw, sk.0, sk.1) < kk + 1
                            &&& head_of(pm, sk.0, sk.1).is_some()
                            &&& 0 <= wmap[sk].0 < gw
                            &&& 0 <= wmap[sk].1 < gh
                            &&& result.spec_cell(wmap[sk].0, wmap[sk].1) == Some(
                                ((sk.0 as isize, sk.1 as isize)),
                            )
                        } by {
                            if sk != (x as int, y as int) {
                                lemma_rm_index(gw, gh, sk.0, sk.1);
                                if (wmap[sk].0, wmap[sk].1) == (d.0 as int, d.1 as int) {
                                    assert(rpre.spec_cell(d.0 as int, d.1 as int) == Some(
                                        ((sk.0 as isize, sk.1 as isize)),
                                    ));
                                } else {
                                    lemma_rm_index(gw, gh, wmap[sk].0, wmap[sk].1);
                                    if rm_index(gw, wmap[sk].0, wmap[sk].1) == idx {
                                        lemma_rm_index_injective(
                                            gw,
                                            gh,
                                            wmap[sk].0,
                                            wmap[sk].1,
                                            d.0 as int,
                                            d.1 as int,
                                        );
                                    }
                                    assert(result.spec_cell(wmap[sk].0, wmap[sk].1)
                                        == rpre.spec_cell(wmap[sk].0, wmap[sk].1));
                                }
                            }
                        }
                    }
                },
                None => {
                    proof {
                        assert(head_of(pm, x as int, y as int).is_none());
                    }
                    orphans.push((x as isize, y as isize));
                    proof {
                        assert(orphans@.last() == ((x as isize, y as isize)));
                        assert(orphans@.contains(((x as isize, y as isize))));
                    }
                },
            }
            proof {
                assert forall|sx: int, sy: int|
                    0 <= sx < gw && 0 <= sy < gh && rm_index(gw, sx, sy) < kk + 1 implies {
                    if (#[trigger] head_of(pm, sx, sy)).is_some() {
                        wmap.contains_key(((sx, sy)))
                    } else {
                        orphans@.contains(((sx as isize, sy as isize)))
                    }
                } by {
                    if rm_index(gw, sx, sy) == kk {
                        lemma_rm_index(gw, gh, sx, sy);
                        lemma_rm_index_injective(gw, gh, sx, sy, x as int, y as int);
                    } else {
                        if head_of(pm, sx, sy).is_none() {
                            assert(opre.contains(((sx as isize, sy as isize))));
                            let j0 = choose|j0: int|
                                0 <= j0 < opre.len() && opre[j0] == ((sx as isize, sy as isize));
                            assert(orphans@[j0] == ((sx as isize, sy as isize)));
                            assert(orphans@.contains(((sx as isize, sy as isize))));
                        }
                    }
                }
            }
            x += 1;
        }
        y += 1;
        proof {
            assert(y as int * gw == (y as int - 1) * gw + gw) by (nonlinear_arith);
        }
    }
    proof {
        assert(gh * gw == gw * gh) by (nonlinear_arith);
    }
    // collect the destinations nobody claimed, in row-major order
    let mut free: Vec<(isize, isize)> = Vec::new();
    let mut y2: usize = 0;
    while y2 < h
        invariant
            gw == result.spec_width(),
            gh == result.spec_height(),
            0 <= gw <= crate::grid::MAX_EXTENT,
            0 <= gh <= crate::grid::MAX_EXTENT,
            result.wf(),
            result.spec_cells().len() == gw * gh,
            w == gw,
            h == gh,
            nn == gw * gh,
            y2 <= h,
            forall|j: int|
                0 <= j < free@.len() ==> {
                    let d = #[trigger] free@[j];
                    &&& 0 <= d.0 < gw
                    &&& 0 <= d.1 < gh
                    &&& rm_index(gw, d.0 as int, d.1 as int) < y2 as int * gw
                    &&& result.spec_cell(d.0 as int, d.1 as int).is_none()
                },
            forall|j1: int, j2: int|
                0 <= j1 < j2 < free@.len() ==> rm_index(
                    gw,
                    #[trigger] free@[j1].0 as int,
                    free@[j1].1 as int,
                ) < rm_index(gw, #[trigger] free@[j2].0 as int, free@[j2].1 as int),
            forall|dx: int, dy: int|
                0 <= dx < gw && 0 <= dy < gh && rm_index(gw, dx, dy) < y2 as int * gw && (
                #[trigger] result.spec_cell(dx, dy)).is_none() ==> free@.contains(
                    ((dx as isize, dy as isize)),
                ),
            free@.len() == y2 as int * gw - count_some_upto(result.spec_cells(), y2 as int * gw),
        decreases gh - y2,
    {
        let mut x2: usize = 0;
        while x2 < w
            invariant
                gw == result.spec_width(),
                gh == result.spec_height(),
                0 <= gw <= crate::grid::MAX_EXTENT,
                0 <= gh <= crate::grid::MAX_EXTENT,
                result.wf(),
                result.spec_cells().len() == gw * gh,
                w == gw,
                h == gh,
                nn == gw * gh,
                y2 < gh,
                x2 <= w,
                forall|j: int|
                    0 <= j < free@.len() ==> {
                        let d = #[trigger] free@[j];
                        &&& 0 <= d.0 < gw
                        &&& 0 <= d.1 < gh
                        &&& rm_index(gw, d.0 as int, d.1 as int) < y2 as int * gw + x2 as int
                        &&& result.spec_cell(d.0 as int, d.1 as int).is_none()
                    },
                forall|j1: int, j2: int|
                    0 <= j1 < j2 < free@.len() ==> rm_index(
                        gw,
                        #[trigger] free@[j1].0 as int,
                        free@[j1].1 as int,
                    ) < rm_index(gw, #[trigger] free@[j2].0 as int, free@[j2].1 as int),
                forall|dx: int, dy: int|
                    0 <= dx < gw && 0 <= dy < gh && rm_index(gw, dx, dy) < y2 as int * gw
                        + x2 as int && (#[trigger] result.spec_cell(dx, dy)).is_none()
                        ==> free@.contains(((dx as isize, dy as isize))),
                free@.len() == y2 as int * gw + x2 as int - count_some_upto(
                    result.spec_cells(),
                    y2 as int * gw + x2 as int,
                ),
            decreases gw - x2,
        {
            proof {
                lemma_rm_index(gw, gh, x2 as int, y2 as int);
            }
            let ghost fpre = free@;
            let c = match GridLike::get(&result, x2 as isize, y2 as isize) {
                Some(c) => c,
                None => unreached(),
            };
            if c.is_none() {
                free.push((x2 as isize, y2 as isize));
                proof {
                    assert(free@.last() == ((x2 as isize, y2 as isize)));
                    assert(free@.contains(((x2 as isize, y2 as isize))));
                }
            }
            proof {
                let kk2 = y2 as int * gw + x2 as int;
                assert(count_some_upto(result.spec_cells(), kk2 + 1) == count_some_upto(
                    result.spec_cells(),
                    kk2,
                ) + (if result.spec_cells()[kk2].is_some() {
                    1int
                } else {
                    0int
                }));
                assert forall|dx: int, dy: int|
                    0 <= dx < gw && 0 <= dy < gh && rm_index(gw, dx, dy) < kk2 + 1 && (
                #[trigger] result.spec_cell(dx, dy)).is_none() implies free@.contains(
                    ((dx as isize, dy as isize)),
                ) by {
                    if rm_index(gw, dx, dy) == kk2 {
                        lemma_rm_index(gw, gh, dx, dy);
                        lemma_rm_index_injective(gw, gh, dx, dy, x2 as int, y2 as int);
                    } else {
                        assert(fpre.contains(((dx as isize, dy as isize))));
                        let j0 = choose|j0: int|
                            0 <= j0 < fpre.len() && fpre[j0] == ((dx as isize, dy as isize));
                        assert(free@[j0] == ((dx as isize, dy as isize)));
                        assert(free@.contains(((dx as isize, dy as isize))));
                    }
                }
            }
            x2 += 1;
        }
        y2 += 1;
        proof {
            assert(y2 as int * gw == (y2 as int - 1) * gw + gw) by (nonlinear_arith);
        }
    }
    proof {
        assert(gh * gw == gw * gh) by (nonlinear_arith);
        assert forall|dx: int, dy: int|
            0 <= dx < gw && 0 <= dy < gh && (#[trigger] result.spec_cell(dx, dy)).is_none()
                implies free@.contains(((dx as isize, dy as isize))) by {
            lemma_rm_index(gw, gh, dx, dy);
        }
        assert forall|sx: int, sy: int| 0 <= sx < gw && 0 <= sy < gh implies {
            if (#[trigger] head_of(pm, sx, sy)).is_some() {
                wmap.contains_key(((sx, sy)))
            } else {
                orphans@.contains(((sx as isize, sy as isize)))
            }
        } by {
            lemma_rm_index(gw, gh, sx, sy);
        }
        assert forall|j: int| 0 <= j < orphans@.len() implies !wmap.contains_key(
            ((#[trigger] orphans@[j].0 as int, orphans@[j].1 as int)),
        ) by {
            let sj = orphans@[j];
            if wmap.contains_key(((sj.0 as int, sj.1 as int))) {
                assert(head_of(pm, sj.0 as int, sj.1 as int).is_some());
            }
        }
        assert forall|sk: (int, int)|
            #[trigger] wmap.contains_key(sk) && head_of(pm, sk.0, sk.1).is_some() implies head_of(
            pm,
            sk.0,
            sk.1,
        ) == Some(((wmap[sk].0 as isize, wmap[sk].1 as isize))) by {
            let dd = wmap[sk];
            assert(result.spec_cell(dd.0, dd.1) == Some(((sk.0 as isize, sk.1 as isize))));
        }
        assert(free@.len() == orphans@.len());
    }
    // hand every orphan the nearest free destination
    let mut oi: usize = 0;
    while oi < orphans.len()
        invariant
            moves_wf(pm),
            gw == pm.spec_width(),
            gh == pm.spec_height(),
            0 <= gw <= crate::grid::MAX_EXTENT,
            0 <= gh <= crate::grid::MAX_EXTENT,
            w == gw,
            h == gh,
            nn == gw * gh,
            result.wf(),
            result.spec_width() == gw,
            result.spec_height() == gh,
            result.spec_cells().len() == gw * gh,
            oi <= orphans@.len(),
            free@.len() == orphans@.len() - oi,
            forall|j: int|
                0 <= j < orphans@.len() ==> {
                    let s = #[trigger] orphans@[j];
                    &&& 0 <= s.0 < gw
                    &&& 0 <= s.1 < gh
                    &&& head_of(pm, s.0 as int, s.1 as int).is_none()
                },
            forall|j1: int, j2: int|
                0 <= j1 < j2 < orphans@.len() ==> rm_index(
                    gw,
                    #[trigger] orphans@[j1].0 as int,
                    orphans@[j1].1 as int,
                ) < rm_index(gw, #[trigger] orphans@[j2].0 as int, orphans@[j2].1 as int),
            forall|j: int|
                0 <= j < free@.len() ==> {
                    let d = #[trigger] free@[j];
                    &&& 0 <= d.0 < gw
                    &&& 0 <= d.1 < gh
                    &&& result.spec_cell(d.0 as int, d.1 as int).is_none()
                },
            forall|j1: int, j2: int|
                0 <= j1 < j2 < free@.len() ==> rm_index(
                    gw,
                    #[trigger] free@[j1].0 as int,
                    free@[j1].1 as int,
                ) < rm_index(gw, #[trigger] free@[j2].0 as int, free@[j2].1 as int),
            forall|dx: int, dy: int|
                0 <= dx < gw && 0 <= dy < gh && (#[trigger] result.spec_cell(dx, dy)).is_none()
                    ==> free@.contains(((dx as isize, dy as isize))),
            forall|dx: int, dy: int|
                0 <= dx < gw && 0 <= dy < gh ==> match #[trigger] result.spec_cell(dx, dy) {
                    Option::Some(s) => {
                        &&& 0 <= s.0 < gw
                        &&& 0 <= s.1 < gh
                        &&& wmap.contains_key(((s.0 as int, s.1 as int)))
                        &&& wmap[((s.0 as int, s.1 as int))] == ((dx, dy))
                    },
                    Option::None => true,
                },
            forall|sk: (int, int)|
                #[trigger] wmap.contains_key(sk) ==> {
                    &&& 0 <= sk.0 < gw
                    &&& 0 <= sk.1 < gh
                    &&& 0 <= wmap[sk].0 < gw
                    &&& 0 <= wmap[sk].1 < gh
                    &&& result.spec_cell(wmap[sk].0, wmap[sk].1) == Some(
                        ((sk.0 as isize, sk.1 as isize)),
                    )
                },
            forall|sk: (int, int)|
                #[trigger] wmap.contains_key(sk) && head_of(pm, sk.0, sk.1).is_some()
                    ==> head_of(pm, sk.0, sk.1) == Some(
                    ((wmap[sk].0 as isize, wmap[sk].1 as isize)),
                ),
            forall|sx: int, sy: int|
                0 <= sx < gw && 0 <= sy < gh ==> {
                    if (#[trigger] head_of(pm, sx, sy)).is_some() {
                        wmap.contains_key(((sx, sy)))
                    } else {
                        orphans@.contains(((sx as isize, sy as isize)))
                    }
                },
            forall|j: int|
                0 <= j < oi ==> wmap.contains_key(
                    ((#[trigger] orphans@[j].0 as int, orphans@[j].1 as int)),
                ),
            forall|j: int|
                oi <= j < orphans@.len() ==> !wmap.contains_key(
                    ((#[trigger] orphans@[j].0 as int, orphans@[j].1 as int)),
                ),
        decreases orphans@.len() - oi,
    {
        let s = orphans[oi];
        // nearest free destination; first minimum wins, and the free list
        // is in row-major order, so ties go to the lowest (y, x)
        let mut best: usize = 0;
        proof {
            assert(0 <= s.0 < gw && 0 <= s.1 < gh);
        }
        let mut best_d: i64 = sq_dist(s, free[0]);
        let mut j: usize = 1;
        while j < free.len()
            invariant
                0 <= gw <= crate::grid::MAX_EXTENT,
                0 <= gh <= crate::grid::MAX_EXTENT,
                0 <= s.0 < gw,
                0 <= s.1 < gh,
                forall|j2: int|
                    0 <= j2 < free@.len() ==> {
                        let d2 = #[trigger] free@[j2];
                        0 <= d2.0 < gw && 0 <= d2.1 < gh
                    },
                free@.len() >= 1,
                1 <= j <= free@.len(),
                best < j,
                best_d == spec_sq_dist(free@[best as int], s),
                forall|j2: int|
                    0 <= j2 < j ==> best_d <= #[trigger] spec_sq_dist(free@[j2], s),
            decreases free@.len() - j,
        {
            let dcur = sq_dist(s, free[j]);
            if dcur < best_d {
                best = j;
                best_d = dcur;
            }
            j += 1;
        }
        let ghost freepre = free@;
        let d = free.remove(best);
        let ghost rpre = result;
        proof {
            freepre.remove_ensures(best as int);
            assert(rpre.spec_cell(d.0 as int, d.1 as int).is_none());
        }
        result.set(d.0 as usize, d.1 as usize, Some(s));
        proof {
            let idx = rm_index(gw, d.0 as int, d.1 as int);
            lemma_rm_index(gw, gh, d.0 as int, d.1 as int);
            wmap = wmap.insert(((s.0 as int, s.1 as int)), ((d.0 as int, d.1 as int)));
            assert(head_of(pm, s.0 as int, s.1 as int).is_none());
            // the free list shrank by exactly the assigned destination
            assert forall|j2: int| 0 <= j2 < free@.len() implies {
                let d2 = #[trigger] free@[j2];
                &&& 0 <= d2.0 < gw
                &&& 0 <= d2.1 < gh
                &&& result.spec_cell(d2.0 as int, d2.1 as int).is_none()
            } by {
                let d2 = free@[j2];
                if j2 < best {
                    assert(freepre[j2] == d2);
                    assert(rm_index(gw, freepre[j2].0 as int, freepre[j2].1 as int) < rm_index(
                        gw,
                        freepre[best as int].0 as int,
                        freepre[best as int].1 as int,
                    ));
                } else {
                    assert(freepre[j2 + 1] == d2);
                    assert(rm_index(gw, freepre[best as int].0 as int, freepre[best as int].1 as int)
                        < rm_index(gw, freepre[j2 + 1].0 as int, freepre[j2 + 1].1 as int));
                }
                lemma_rm_index(gw, gh, d2.0 as int, d2.1 as int);
                assert(rm_index(gw, d2.0 as int, d2.1 as int) != idx);
                assert(result.spec_cell(d2.0 as int, d2.1 as int) == rpre.spec_cell(
                    d2.0 as int,
                    d2.1 as int,
                ));
            }
            assert forall|j1: int, j2: int| 0 <= j1 < j2 < free@.len() implies rm_index(
                gw,
                #[trigger] free@[j1].0 as int,
                free@[j1].1 as int,
            ) < rm_index(gw, #[trigger] free@[j2].0 as int, free@[j2].1 as int) by {
                if j1 < best {
                    assert(freepre[j1] == free@[j1]);
                } else {
                    assert(freepre[j1 + 1] == free@[j1]);
                }
                if j2 < best {
                    assert(freepre[j2] == free@[j2]);
                } else {
                    assert(freepre[j2 + 1] == free@[j2]);
                }
            }
            assert forall|dx: int, dy: int|
                0 <= dx < gw && 0 <= dy < gh && (#[trigger] result.spec_cell(dx, dy)).is_none()
                    implies free@.contains(((dx as isize, dy as isize))) by {
                lemma_rm_index(gw, gh, dx, dy);
                if rm_index(gw, dx, dy) == idx {
                    lemma_rm_index_injective(gw, gh, dx, dy, d.0 as int, d.1 as int);
                } else {
                    assert(result.spec_cell(dx, dy) == rpre.spec_cell(dx, dy));
                    assert(freepre.contains(((dx as isize, dy as isize))));
                    let j0 = choose|j0: int|
                        0 <= j0 < freepre.len() && freepre[j0] == ((dx as isize, dy as isize));
                    if j0 == best {
                        assert((dx as isize, dy as isize) == d);
                        lemma_rm_index_injective(gw, gh, dx, dy, d.0 as int, d.1 as int);
                    } else if j0 < best {
                        assert(free@[j0] == freepre[j0]);
                        assert(free@.contains(((dx as isize, dy as isize))));
                    } else {
                        assert(free@[j0 - 1] == freepre[j0]);
                        assert(free@.contains(((dx as isize, dy as isize))));
                    }
                }
            }
            assert forall|dx: int, dy: int| 0 <= dx < gw && 0 <= dy < gh implies match #[trigger]
                result.spec_cell(dx, dy) {
                Option::Some(s2) => {
                    &&& 0 <= s2.0 < gw
                    &&& 0 <= s2.1 < gh
                    &&& wmap.contains_key(((s2.0 as int, s2.1 as int)))
                    &&& wmap[((s2.0 as int, s2.1 as int))] == ((dx, dy))
                },
                Option::None => true,
            } by {
                lemma_rm_index(gw, gh, dx, dy);
                if rm_index(gw, dx, dy) == idx {
                    lemma_rm_index_injective(gw, gh, dx, dy, d.0 as int, d.1 as int);
                } else {
                    assert(result.spec_cell(dx, dy) == rpre.spec_cell(dx, dy));
                    match rpre.spec_cell(dx, dy) {
                        Option::Some(s2) => {
                            assert((s2.0 as int, s2.1 as int) != (s.0 as int, s.1 as int)) by {
                                if (s2.0 as int, s2.1 as int) == (s.0 as int, s.1 as int) {
                                    assert(wmap.contains_key(((s2.0 as int, s2.1 as int))));
                                }
                            }
                        },
                        Option::None => {},
                    }
                }
            }
            assert forall|sk: (int, int)| #[trigger] wmap.contains_key(sk) implies {
                &&& 0 <= sk.0 < gw
                &&& 0 <= sk.1 < gh
                &&& 0 <= wmap[sk].0 < gw
                &&& 0 <= wmap[sk].1 < gh
                &&& result.spec_cell(wmap[sk].0, wmap[sk].1) == Some(
                    ((sk.0 as isize, sk.1 as isize)),
                )
            } by {
                if sk != (s.0 as int, s.1 as int) {
                    lemma_rm_index(gw, gh, wmap[sk].0, wmap[sk].1);
                    if rm_index(gw, wmap[sk].0, wmap[sk].1) == idx {
                        lemma_rm_index_injective(
                            gw,
                            gh,
                            wmap[sk].0,
                            wmap[sk].1,
                            d.0 as int,
                            d.1 as int,
                        );
                        assert(rpre.spec_cell(d.0 as int, d.1 as int) == Some(
                            ((sk.0 as isize, sk.1 as isize)),
                        ));
                    } else {
                        assert(result.spec_cell(wmap[sk].0, wmap[sk].1) == rpre.spec_cell(
                            wmap[sk].0,
                            wmap[sk].1,
                        ));
                    }
                }
            }
        }
        oi += 1;
    }
    // no free destination remains, so every cell is assigned
    proof {
        assert forall|dx: int, dy: int| 0 <= dx < gw && 0 <= dy < gh implies (
        #[trigger] result.spec_cell(dx, dy)).is_some() by {
            if result.spec_cell(dx, dy).is_none() {
                assert(free@.contains(((dx as isize, dy as isize))));
            }
        }
    }
    let mut out: Vec<(isize, isize)> = Vec::new();
    let mut y3: usize = 0;
    while y3 < h
        invariant
            gw == result.spec_width(),
            gh == result.spec_height(),
            0 <= gw <= crate::grid::MAX_EXTENT,
            0 <= gh <= crate::grid::MAX_EXTENT,
            result.wf(),
            result.spec_cells().len() == gw * gh,
            w == gw,
            h == gh,
            y3 <= h,
            forall|dx: int, dy: int|
                0 <= dx < gw && 0 <= dy < gh ==> (#[trigger] result.spec_cell(dx, dy)).is_some(),
            out@.len() == y3 as int * gw,
            forall|k2: int|
                0 <= k2 < out@.len() ==> Some(#[trigger] out@[k2]) == result.spec_cells()[k2],
        decreases gh - y3,
    {
        let mut x3: usize = 0;
        while x3 < w
            invariant
                gw == result.spec_width(),
                gh == result.spec_height(),
                0 <= gw <= crate::grid::MAX_EXTENT,
                0 <= gh <= crate::grid::MAX_EXTENT,
                result.wf(),
                result.spec_cells().len() == gw * gh,
                w == gw,
                h == gh,
                y3 < gh,
                x3 <= w,
                forall|dx: int, dy: int|
                    0 <= dx < gw && 0 <= dy < gh ==> (#[trigger] result.spec_cell(
                        dx,
                        dy,
                    )).is_some(),
                out@.len() == y3 as int * gw + x3 as int,
                forall|k2: int|
                    0 <= k2 < out@.len() ==> Some(#[trigger] out@[k2]) == result.spec_cells()[k2],
            decreases gw - x3,
        {
            proof {
                lemma_rm_index(gw, gh, x3 as int, y3 as int);
            }
            let c = match GridLike::get(&result, x3 as isize, y3 as isize) {
                Some(c) => c,
                None => unreached(),
            };
            match c {
                Some(sv) => out.push(*sv),
                None => unreached(),
            }
            x3 += 1;
        }
        y3 += 1;
        proof {
            assert(y3 as int * gw == (y3 as int - 1) * gw + gw) by (nonlinear_arith);
        }
    }
    proof {
        assert(gh * gw == gw * gh) by (nonlinear_arith);
    }
    let r = Grid::from_cells(w, h, out);
    proof {
        assert forall|dx: int, dy: int| 0 <= dx < gw && 0 <= dy < gh implies Some(
            #[trigger] r.spec_cell(dx, dy),
        ) == result.spec_cell(dx, dy) by {
            lemma_rm_index(gw, gh, dx, dy);
        }
        assert forall|sx: int, sy: int|
            0 <= sx < gw && 0 <= sy < gh && (#[trigger] head_of(pm, sx, sy)).is_some() implies {
            let d = head_of(pm, sx, sy)->Some_0;
            r.spec_cell(d.0 as int, d.1 as int) == ((sx as isize, sy as isize))
        } by {
            assert(wmap.contains_key(((sx, sy))));
            let dd = wmap[((sx, sy))];
            assert(head_of(pm, sx, sy) == Some(((dd.0 as isize, dd.1 as isize))));
            assert(result.spec_cell(dd.0, dd.1) == Some(((sx as isize, sy as isize))));
            assert(Some(r.spec_cell(dd.0, dd.1)) == result.spec_cell(dd.0, dd.1));
        }
        assert forall|x1: int, y1: int, x2: int, y2: int|
            0 <= x1 < gw && 0 <= y1 < gh && 0 <= x2 < gw && 0 <= y2 < gh && (x1, y1) != (x2, y2)
                implies #[trigger] r.spec_cell(x1, y1) != #[trigger] r.spec_cell(x2, y2) by {
            let s1 = result.spec_cell(x1, y1)->Some_0;
            let s2 = result.spec_cell(x2, y2)->Some_0;
            if s1 == s2 {
                assert(wmap[((s1.0 as int, s1.1 as int))] == ((x1, y1)));
                assert(wmap[((s2.0 as int, s2.1 as int))] == ((x2, y2)));
            }
        }
        assert forall|sx: int, sy: int| 0 <= sx < gw && 0 <= sy < gh implies #[trigger] appears(
            r,
            sx,
            sy,
        ) by {
            if head_of(pm, sx, sy).is_some() {
                assert(wmap.contains_key(((sx, sy))));
            } else {
                assert(orphans@.contains(((sx as isize, sy as isize))));
                let j0 = choose|j0: int|
                    0 <= j0 < orphans@.len() && orphans@[j0] == ((sx as isize, sy as isize));
                assert(wmap.contains_key(
                    ((orphans@[j0].0 as int, orphans@[j0].1 as int)),
                ));
            }
            let dd2 = wmap[((sx, sy))];
            assert(result.spec_cell(dd2.0, dd2.1) == Some(((sx as isize, sy as isize))));
            assert(r.spec_cell(dd2.0, dd2.1) == ((sx as isize, sy as isize)));
        }
    }
    r
}

/// Zero entries up to any bound count zero present values.
proof fn lemma_count_zero(s: Seq<Option<(isize, isize)>>, k: int)
    requires
        forall|i: int| 0 <= i < s.len() ==> (#[trigger] s[i]).is_none(),
        k <= s.len(),
    ensures
        count_some_upto(s, k) == 0,
    decreases k,
{
    if k > 0 {
        lemma_count_zero(s, k - 1);
    }
}

/// Squared Euclidean distance of two coordinates.
pub open spec fn spec_sq_dist(a: (isize, isize), b: (isize, isize)) -> int {
    (a.0 - b.0) * (a.0 - b.0) + (a.1 - b.1) * (a.1 - b.1)
}

/// Squared Euclidean distance, computed exactly in 64 bits.
fn sq_dist(a: (isize, isize), b: (isize, isize)) -> (r: i64)
    requires
        -(crate::grid::MAX_EXTENT as int) <= a.0 <= crate::grid::MAX_EXTENT as int,
        -(crate::grid::MAX_EXTENT as int) <= a.1 <= crate::grid::MAX_EXTENT as int,
        -(crate::grid::MAX_EXTENT as int) <= b.0 <= crate::grid::MAX_EXTENT as int,
        -(crate::grid::MAX_EXTENT as int) <= b.1 <= crate::grid::MAX_EXTENT as int,
    ensures
        r == spec_sq_dist(b, a),
{
    let dx: i64 = b.0 as i64 - a.0 as i64;
    let dy: i64 = b.1 as i64 - a.1 as i64;
    proof {
        assert(dx * dx + dy * dy <= 2 * 8192 * 8192 && 0 <= dx * dx && 0 <= dy * dy)
            by (nonlinear_arith)
            requires
                -8192 <= dx <= 8192,
                -8192 <= dy <= 8192,
        ;
    }
    dx * dx + dy * dy
}

/// Proposers depend only on the in-range heads, so two grids of equal
/// extent with equal heads have equal proposer lists.
proof fn lemma_proposers_congruent(
    g1: Grid<PotentialMoves>,
    g2: Grid<PotentialMoves>,
    d: (isize, isize),
    n: int,
)
    requires
        g1.spec_width() == g2.spec_width(),
        g1.spec_height() == g2.spec_height(),
        0 <= g1.spec_width(),
        0 <= g1.spec_height(),
        0 <= n <= g1.spec_width() * g1.spec_height(),
        forall|x: int, y: int|
            0 <= x < g1.spec_width() && 0 <= y < g1.spec_height() ==> #[trigger] head_of(g1, x, y)
                == head_of(g2, x, y),
    ensures
        spec_proposers(g1, d, n) == spec_proposers(g2, d, n),
    decreases n,
{
    if n > 0 {
        lemma_proposers_congruent(g1, g2, d, n - 1);
        let w = g1.spec_width();
        let h = g1.spec_height();
        assert(0 < w) by (nonlinear_arith)
            requires
                0 < n <= w * h,
                0 <= w,
                0 <= h,
        ;
        vstd::arithmetic::div_mod::lemma_fundamental_div_mod(n - 1, w);
        vstd::arithmetic::div_mod::lemma_mod_bound(n - 1, w);
        let sx = (n - 1) % w;
        let sy = (n - 1) / w;
        assert(0 <= sy && sy < h) by (nonlinear_arith)
            requires
                n - 1 == sy * w + sx,
                0 <= sx < w,
                0 <= n - 1 < w * h,
                0 < w,
        ;
        assert(head_of(g1, sx, sy) == head_of(g2, sx, sy));
    }
}

/// Resolve all movement intentions into a grid-wide permutation.
///
/// Repeatedly builds the per-destination proposer lists and resolves
/// every contested destination (the losers advance to their next
/// choice) until no destination is contested; sources left without a
/// head are then assigned the nearest unclaimed destination.  The
/// returned grid maps every destination to a unique source — a true
/// bijection on grid coordinates, in which every source that still
/// holds a head after the fixed point is assigned exactly that head —
/// together with the number of resolution iterations, which never
/// exceeds the total number of listed preferences plus one.
pub fn reduce_potential_moves(
    scorer: &PairwiseTileScorer,
    config: &Config,
    potential_moves: &mut Grid<PotentialMoves>,
) -> (r: (Grid<(isize, isize)>, usize))
    requires
        scorer.wf(),
        *config == scorer.spec_cfg(),
        moves_wf(*old(potential_moves)),
        old(potential_moves).spec_width() == scorer.spec_basis().spec_width(),
        old(potential_moves).spec_height() == scorer.spec_basis().spec_height(),
        spec_total_remaining(*old(potential_moves)) < usize::MAX,
    ensures
        r.0.wf(),
        r.0.spec_width() == old(potential_moves).spec_width(),
        r.0.spec_height() == old(potential_moves).spec_height(),
        forall|dx: int, dy: int|
            0 <= dx < r.0.spec_width() && 0 <= dy < r.0.spec_height() ==> {
                let s = #[trigger] r.0.spec_cell(dx, dy);
                0 <= s.0 < r.0.spec_width() && 0 <= s.1 < r.0.spec_height()
            },
        forall|x1: int, y1: int, x2: int, y2: int|
            0 <= x1 < r.0.spec_width() && 0 <= y1 < r.0.spec_height() && 0 <= x2
                < r.0.spec_width() && 0 <= y2 < r.0.spec_height() && (x1, y1) != (x2, y2)
                ==> #[trigger] r.0.spec_cell(x1, y1) != #[trigger] r.0.spec_cell(x2, y2),
        forall|sx: int, sy: int|
            0 <= sx < r.0.spec_width() && 0 <= sy < r.0.spec_height() ==> #[trigger] appears(
                r.0,
                sx,
                sy,
            ),
        forall|sx: int, sy: int|
            0 <= sx < r.0.spec_width() && 0 <= sy < r.0.spec_height() && (#[trigger] head_of(
                *final (potential_moves),
                sx,
                sy,
            )).is_some() ==> {
                let d = head_of(*final (potential_moves), sx, sy)->Some_0;
                r.0.spec_cell(d.0 as int, d.1 as int) == ((sx as isize, sy as isize))
            },
        1 <= r.1 <= spec_total_remaining(*old(potential_moves)) + 1,
        moves_wf(*final (potential_moves)),
        final (potential_moves).spec_width() == old(potential_moves).spec_width(),
        final (potential_moves).spec_height() == old(potential_moves).spec_height(),
        forall|sx: int, sy: int|
            0 <= sx < old(potential_moves).spec_width() && 0 <= sy < old(
                potential_moves,
            ).spec_height() ==> {
                let oldc = old(potential_moves).spec_cell(sx, sy);
                let newc = #[trigger] final (potential_moves).spec_cell(sx, sy);
                newc.spec_prefs() == oldc.spec_prefs() && newc.spec_current()
                    >= oldc.spec_current()
            },
        forall|d: (isize, isize)|
            0 <= d.0 < old(potential_moves).spec_width() && 0 <= d.1 < old(
                potential_moves,
            ).spec_height() ==> #[trigger] spec_proposers(
                *final (potential_moves),
                d,
                old(potential_moves).spec_width() * old(potential_moves).spec_height(),
            ).len() <= 1,
{
    let ghost basis = scorer.spec_basis();
    let ghost cfg = scorer.spec_cfg();
    let ghost gw = old(potential_moves).spec_width();
    let ghost gh = old(potential_moves).spec_height();
    let ghost nn = gw * gh;
    let ghost total0 = spec_total_remaining(*potential_moves);
    proof {
        potential_moves.lemma_wf();
        assert forall|j2: int|
            0 <= j2 < potential_moves.spec_cells().len() implies (#[trigger]
        potential_moves.spec_cells()[j2]).wf() by {
            assert(pm_entry_wf(*potential_moves, j2));
        }
        lemma_sum_remaining_nonneg(potential_moves.spec_cells());
    }
    let mut iters: usize = 0;
    loop
        invariant_except_break
            iters as int <= total0 - spec_total_remaining(*potential_moves),
        invariant
            forall|sx: int, sy: int|
                0 <= sx < gw && 0 <= sy < gh ==> {
                    let oldc = old(potential_moves).spec_cell(sx, sy);
                    let newc = #[trigger] potential_moves.spec_cell(sx, sy);
                    newc.spec_prefs() == oldc.spec_prefs() && newc.spec_current()
                        >= oldc.spec_current()
                },
            scorer.wf(),
            *config == scorer.spec_cfg(),
            basis == scorer.spec_basis(),
            cfg == scorer.spec_cfg(),
            gw == basis.spec_width(),
            gh == basis.spec_height(),
            nn == gw * gh,
            total0 < usize::MAX,
            moves_wf(*potential_moves),
            potential_moves.spec_width() == gw,
            potential_moves.spec_height() == gh,
            0 <= spec_total_remaining(*potential_moves),
        ensures
            moves_wf(*potential_moves),
            potential_moves.spec_width() == gw,
            potential_moves.spec_height() == gh,
            1 <= iters as int <= total0 + 1,
            forall|d: (isize, isize)|
                0 <= d.0 < gw && 0 <= d.1 < gh ==> #[trigger] spec_proposers(
                    *potential_moves,
                    d,
                    nn,
                ).len() <= 1,
        decreases total0 - iters,
    {
        iters += 1;
        let conflicts = build_conflicts(potential_moves);
        let ghost pmbefore = *potential_moves;
        let found = resolve_conflicts(scorer, config, &conflicts, potential_moves);
        proof {
            potential_moves.lemma_wf();
            assert forall|j2: int|
                0 <= j2 < potential_moves.spec_cells().len() implies (#[trigger]
            potential_moves.spec_cells()[j2]).wf() by {
                assert(pm_entry_wf(*potential_moves, j2));
            }
            lemma_sum_remaining_nonneg(potential_moves.spec_cells());
        }
        if !found {
            proof {
                assert forall|x: int, y: int|
                    0 <= x < gw && 0 <= y < gh implies #[trigger] head_of(pmbefore, x, y)
                    == head_of(*potential_moves, x, y) by {
                    {
                        assert(spec_pop_count(pmbefore, basis, cfg, x, y) == 0) by {
                            match head_of(pmbefore, x, y) {
                                Option::None => {},
                                Option::Some(d2) => {
                                    pmbefore.lemma_wf();
                                    lemma_moves_wf_at(pmbefore, x, y);
                                    let p = pmbefore.spec_cell(x, y);
                                    assert(p.spec_prefs()[p.spec_current()] == d2);
                                    if spec_proposers(pmbefore, d2, nn).len() > 1 {
                                        lemma_rm_index(gw, gh, d2.0 as int, d2.1 as int);
                                        let dx = d2.0 as int;
                                        let dy = d2.1 as int;
                                        assert((dx as isize, dy as isize) == d2);
                                        assert(0 <= dx < gw && 0 <= dy < gh && spec_proposers(
                                            pmbefore,
                                            ((dx as isize, dy as isize)),
                                            nn,
                                        ).len() > 1);
                                        assert(spec_has_conflict(pmbefore));
                                    }
                                },
                            }
                        }
                    }
                }
                assert forall|d: (isize, isize)|
                    0 <= d.0 < gw && 0 <= d.1 < gh implies #[trigger] spec_proposers(
                    *potential_moves,
                    d,
                    nn,
                ).len() <= 1 by {
                    lemma_proposers_congruent(pmbefore, *potential_moves, d, nn);
                    if spec_proposers(pmbefore, d, nn).len() > 1 {
                        lemma_rm_index(gw, gh, d.0 as int, d.1 as int);
                        let dx = d.0 as int;
                        let dy = d.1 as int;
                        assert((dx as isize, dy as isize) == d);
                        assert(0 <= dx < gw && 0 <= dy < gh && spec_proposers(
                            pmbefore,
                            ((dx as isize, dy as isize)),
                            nn,
                        ).len() > 1);
                        assert(spec_has_conflict(pmbefore));
                    }
                }
            }
            break ;
        }
    }
    proof {
        assert forall|x1: int, y1: int, x2: int, y2: int|
            potential_moves.spec_contains(x1, y1) && potential_moves.spec_contains(x2, y2) && (
            x1,
            y1,
        ) != (x2, y2) && (#[trigger] head_of(*potential_moves, x1, y1)).is_some() implies head_of(
            *potential_moves,
            x1,
            y1,
        ) != #[trigger] head_of(*potential_moves, x2, y2) by {
            lemma_no_conflict_injective(*potential_moves, x1, y1, x2, y2);
        }
    }
    let out = build_permutation(potential_moves);
    (out, iters)
}


} // verus!
