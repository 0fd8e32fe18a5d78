//! Dense 2D containers with bounds-checked access.
//!
//! Coordinates are signed so that out-of-range offsets (negative or past
//! the extent) resolve to "absent" rather than wrapping or panicking:
//! grid edges behave as open boundaries.

use vstd::arithmetic::div_mod::lemma_fundamental_div_mod_converse;
use vstd::prelude::*;

verus! {

/// Largest grid extent on either axis; keeps all index arithmetic small.
pub const MAX_EXTENT: usize = 4096;

/// Row-major flat index of in-range coordinates.
pub open spec fn rm_index(w: int, x: int, y: int) -> int {
    y * w + x
}

/// The flat index of in-range coordinates lies within the storage, and
/// recovering the coordinates from it by division is exact.
pub proof fn lemma_rm_index(w: int, h: int, x: int, y: int)
    requires
        0 <= x < w <= MAX_EXTENT,
        0 <= y < h <= MAX_EXTENT,
    ensures
        0 <= rm_index(w, x, y) < w * h,
        w * h <= MAX_EXTENT * MAX_EXTENT,
        rm_index(w, x, y) % w == x,
        rm_index(w, x, y) / w == y,
{
    assert(0 <= y * w + x < w * h <= MAX_EXTENT * MAX_EXTENT) by (nonlinear_arith)
        requires
            0 <= x < w <= MAX_EXTENT,
            0 <= y < h <= MAX_EXTENT,
    ;
    lemma_fundamental_div_mod_converse(y * w + x, w, y, x);
}

/// Distinct in-range coordinates have distinct flat indices.
pub proof fn lemma_rm_index_injective(w: int, h: int, x1: int, y1: int, x2: int, y2: int)
    requires
        0 <= x1 < w <= MAX_EXTENT,
        0 <= y1 < h <= MAX_EXTENT,
        0 <= x2 < w,
        0 <= y2 < h,
        rm_index(w, x1, y1) == rm_index(w, x2, y2),
    ensures
        x1 == x2 && y1 == y2,
{
    lemma_rm_index(w, h, x1, y1);
    lemma_rm_index(w, h, x2, y2);
}

/// Read access shared by dense grids.
pub trait GridLike<T>: Sized {
    spec fn inv(&self) -> bool;

    spec fn spec_width(&self) -> int;

    spec fn spec_height(&self) -> int;

    spec fn spec_cell(&self, x: int, y: int) -> T;

    open spec fn spec_contains(&self, x: int, y: int) -> bool {
        0 <= x < self.spec_width() && 0 <= y < self.spec_height()
    }

    fn width(&self) -> (r: usize)
        requires
            self.inv(),
        ensures
            r == self.spec_width(),
    ;

    fn height(&self) -> (r: usize)
        requires
            self.inv(),
        ensures
            r == self.spec_height(),
    ;

    fn get(&self, x: isize, y: isize) -> (r: Option<&T>)
        requires
            self.inv(),
        ensures
            match r {
                Some(t) => self.spec_contains(x as int, y as int) && *t == self.spec_cell(
                    x as int,
                    y as int,
                ),
                None => !self.spec_contains(x as int, y as int),
            },
    ;
}

/// Dense row-major 2D container owning all its cells.
#[derive(Debug, Clone)]
pub struct Grid<T> {
    width: usize,
    height: usize,
    cells: Vec<T>,
}

impl<T> Grid<T> {
    /// The cell storage holds exactly `width * height` values and the
    /// extents stay small enough for exact index arithmetic.
    pub closed spec fn wf(&self) -> bool {
        &&& self.cells@.len() == self.width * self.height
        &&& self.width <= MAX_EXTENT
        &&& self.height <= MAX_EXTENT
    }

    pub closed spec fn spec_width(&self) -> int {
        self.width as int
    }

    pub closed spec fn spec_height(&self) -> int {
        self.height as int
    }

    pub closed spec fn spec_cells(&self) -> Seq<T> {
        self.cells@
    }

    pub open spec fn spec_cell(&self, x: int, y: int) -> T {
        self.spec_cells()[rm_index(self.spec_width(), x, y)]
    }

    pub open spec fn spec_contains(&self, x: int, y: int) -> bool {
        0 <= x < self.spec_width() && 0 <= y < self.spec_height()
    }

    /// `wf` is public knowledge about the storage size.
    pub proof fn lemma_wf(&self)
        requires
            self.wf(),
        ensures
            self.spec_cells().len() == self.spec_width() * self.spec_height(),
            0 <= self.spec_width() <= MAX_EXTENT,
            0 <= self.spec_height() <= MAX_EXTENT,
    {
    }

    /// Build a grid by calling `init` at every coordinate, row-major.
    pub fn new<F: Fn(usize, usize) -> T>(width: usize, height: usize, init: F) -> (r: Grid<T>)
        requires
            width <= MAX_EXTENT,
            height <= MAX_EXTENT,
            forall|x: usize, y: usize|
                x < width && y < height ==> call_requires(init, (x, y)),
        ensures
            r.wf(),
            r.spec_width() == width,
            r.spec_height() == height,
            forall|x: int, y: int|
                0 <= x < width && 0 <= y < height ==> call_ensures(
                    init,
                    (x as usize, y as usize),
                    #[trigger] r.spec_cell(x, y),
                ),
    {
        let mut cells: Vec<T> = Vec::new();
        let mut y: usize = 0;
        while y < height
            invariant
                y <= height,
                width <= MAX_EXTENT,
                height <= MAX_EXTENT,
                cells@.len() == y * width,
                forall|x: usize, yy: usize|
                    x < width && yy < height ==> call_requires(init, (x, yy)),
                forall|k: int|
                    0 <= k < cells@.len() ==> call_ensures(
                        init,
                        ((k % (width as int)) as usize, (k / (width as int)) as usize),
                        #[trigger] cells@[k],
                    ),
            decreases height - y,
        {
            let mut x: usize = 0;
            while x < width
                invariant
                    x <= width,
                    y < height,
                    width <= MAX_EXTENT,
                    height <= MAX_EXTENT,
                    cells@.len() == y * width + x,
                    forall|xx: usize, yy: usize|
                        xx < width && yy < height ==> call_requires(init, (xx, yy)),
                    forall|k: int|
                        0 <= k < cells@.len() ==> call_ensures(
                            init,
                            ((k % (width as int)) as usize, (k / (width as int)) as usize),
                            #[trigger] cells@[k],
                        ),
                decreases width - x,
            {
                let t = init(x, y);
                proof {
                    lemma_rm_index(width as int, height as int, x as int, y as int);
                }
                cells.push(t);
                x += 1;
            }
            y += 1;
            proof {
                assert(y * width == (y - 1) * width + width) by (nonlinear_arith);
            }
        }
        proof {
            assert(height * width == width * height) by (nonlinear_arith);
            assert forall|x: int, y: int| 0 <= x < width && 0 <= y < height implies call_ensures(
                init,
                (x as usize, y as usize),
                #[trigger] cells@[rm_index(width as int, x, y)],
            ) by {
                lemma_rm_index(width as int, height as int, x, y);
            }
        }
        Grid { width, height, cells }
    }

    /// Wrap an existing row-major cell vector.
    pub fn from_cells(width: usize, height: usize, cells: Vec<T>) -> (r: Grid<T>)
        requires
            width <= MAX_EXTENT,
            height <= MAX_EXTENT,
            cells@.len() == width * height,
        ensures
            r.wf(),
            r.spec_width() == width,
            r.spec_height() == height,
            r.spec_cells() == cells@,
    {
        Grid { width, height, cells }
    }

    /// All cells in row-major order.
    pub fn iter(&self) -> (r: &Vec<T>)
        ensures
            r@ == self.spec_cells(),
    {
        &self.cells
    }

    /// Overwrite every cell with the same value.
    pub fn fill(&mut self, t: T) where T: Copy
        requires
            old(self).wf(),
        ensures
            final (self).wf(),
            final (self).spec_width() == old(self).spec_width(),
            final (self).spec_height() == old(self).spec_height(),
            forall|i: int|
                0 <= i < final (self).spec_cells().len() ==> final (self).spec_cells()[i] == t,
    {
        let n = self.cells.len();
        let mut i: usize = 0;
        while i < n
            invariant
                n == self.cells@.len(),
                self.wf(),
                self.width == old(self).width,
                self.height == old(self).height,
                i <= n,
                forall|k: int| 0 <= k < i ==> self.cells@[k] == t,
            decreases n - i,
        {
            self.cells[i] = t;
            i += 1;
        }
    }

    /// Every cell with its coordinates, row-major.
    pub fn enumerate(&self) -> (r: Vec<(usize, usize, T)>) where T: Copy
        requires
            self.wf(),
        ensures
            r@.len() == self.spec_width() * self.spec_height(),
            forall|k: int|
                0 <= k < r@.len() ==> #[trigger] r@[k] == (
                    (k % self.spec_width()) as usize,
                    (k / self.spec_width()) as usize,
                    self.spec_cells()[k],
                ),
    {
        let mut out: Vec<(usize, usize, T)> = Vec::new();
        let mut y: usize = 0;
        while y < self.height
            invariant
                self.wf(),
                y <= self.height,
                out@.len() == y * self.width,
                out@.len() <= self.spec_cells().len(),
                forall|k: int|
                    0 <= k < out@.len() ==> #[trigger] out@[k] == (
                        (k % self.spec_width()) as usize,
                        (k / self.spec_width()) as usize,
                        self.spec_cells()[k],
                    ),
            decreases self.height - y,
        {
            let mut x: usize = 0;
            while x < self.width
                invariant
                    self.wf(),
                    y < self.height,
                    x <= self.width,
                    out@.len() == y * self.width + x,
                    out@.len() <= self.spec_cells().len(),
                    forall|k: int|
                        0 <= k < out@.len() ==> #[trigger] out@[k] == (
                            (k % self.spec_width()) as usize,
                            (k / self.spec_width()) as usize,
                            self.spec_cells()[k],
                        ),
                decreases self.width - x,
            {
                proof {
                    lemma_rm_index(self.spec_width(), self.spec_height(), x as int, y as int);
                }
                let idx: usize = y * self.width + x;
                out.push((x, y, self.cells[idx]));
                x += 1;
            }
            y += 1;
            proof {
                assert(y * self.width == (y - 1) * self.width + self.width) by (nonlinear_arith);
                assert(y * self.spec_width() <= self.spec_height() * self.spec_width())
                    by (nonlinear_arith)
                    requires
                        0 <= y <= self.spec_height(),
                        0 <= self.spec_width(),
                ;
                assert(self.spec_height() * self.spec_width() == self.spec_width()
                    * self.spec_height()) by (nonlinear_arith);
            }
        }
        proof {
            assert(self.height * self.width == self.width * self.height) by (nonlinear_arith);
        }
        out
    }

    /// Mutable access to a cell; absent for out-of-range coordinates.
    pub fn get_mut(&mut self, x: isize, y: isize) -> (r: Option<&mut T>)
        requires
            old(self).wf(),
        ensures
            match r {
                Some(t) => {
                    &&& old(self).spec_contains(x as int, y as int)
                    &&& *t == old(self).spec_cell(x as int, y as int)
                    &&& final (self).wf()
                    &&& final (self).spec_width() == old(self).spec_width()
                    &&& final (self).spec_height() == old(self).spec_height()
                    &&& final (self).spec_cells() == old(self).spec_cells().update(
                        rm_index(old(self).spec_width(), x as int, y as int),
                        *final (t),
                    )
                },
                None => {
                    &&& !old(self).spec_contains(x as int, y as int)
                    &&& *final (self) == *old(self)
                },
            },
    {
        if x < 0 || y < 0 || x >= self.width as isize || y >= self.height as isize {
            return None;
        }
        proof {
            lemma_rm_index(self.spec_width(), self.spec_height(), x as int, y as int);
        }
        let idx: usize = (y as usize) * self.width + (x as usize);
        Some(&mut self.cells[idx])
    }

    /// Replace the cell at in-range coordinates.
    pub fn set(&mut self, x: usize, y: usize, t: T)
        requires
            old(self).wf(),
            old(self).spec_contains(x as int, y as int),
        ensures
            final (self).wf(),
            final (self).spec_width() == old(self).spec_width(),
            final (self).spec_height() == old(self).spec_height(),
            final (self).spec_cells() == old(self).spec_cells().update(
                rm_index(old(self).spec_width(), x as int, y as int),
                t,
            ),
    {
        proof {
            lemma_rm_index(self.spec_width(), self.spec_height(), x as int, y as int);
        }
        let idx: usize = y * self.width + x;
        self.cells[idx] = t;
    }

    /// A window at every cell, in row-major order.
    pub fn windows(&self, size: usize) -> (r: GridWindows<'_, T>)
        requires
            self.wf(),
            1 <= self.spec_width(),
            1 <= self.spec_height(),
            1 <= size <= MAX_EXTENT,
        ensures
            r.wf(),
            r.spec_grid() == *self,
            r.spec_size() == size,
            r.spec_front() == (0int, 0int),
    {
        GridWindows { enumerator: GridEnumerator::new(self), grid: self, size }
    }

    /// A view centered on `at`, addressed by relative offsets.
    pub fn window_at(&self, size: usize, at: (usize, usize)) -> (r: GridWindow<'_, T>)
        requires
            self.wf(),
            self.spec_contains(at.0 as int, at.1 as int),
            1 <= size <= MAX_EXTENT,
        ensures
            r.wf(),
            r.spec_grid() == *self,
            r.spec_center() == (at.0 as int, at.1 as int),
            r.spec_size() == size,
    {
        GridWindow { grid: self, x: at.0, y: at.1, size }
    }
}

impl<T> GridLike<T> for Grid<T> {
    open spec fn inv(&self) -> bool {
        self.wf()
    }

    open spec fn spec_width(&self) -> int {
        Grid::<T>::spec_width(self)
    }

    open spec fn spec_height(&self) -> int {
        Grid::<T>::spec_height(self)
    }

    open spec fn spec_cell(&self, x: int, y: int) -> T {
        Grid::<T>::spec_cell(self, x, y)
    }

    fn width(&self) -> (r: usize) {
        self.width
    }

    fn height(&self) -> (r: usize) {
        self.height
    }

    fn get(&self, x: isize, y: isize) -> (r: Option<&T>) {
        if x < 0 || y < 0 || x >= self.width as isize || y >= self.height as isize {
            return None;
        }
        proof {
            lemma_rm_index(Grid::spec_width(self), Grid::spec_height(self), x as int, y as int);
        }
        let idx: usize = (y as usize) * self.width + (x as usize);
        Some(&self.cells[idx])
    }
}


/// Yields a window centered on every grid cell, row-major.
pub struct GridWindows<'a, T> {
    grid: &'a Grid<T>,
    enumerator: GridEnumerator,
    size: usize,
}

impl<'a, T> GridWindows<'a, T> {
    pub closed spec fn wf(&self) -> bool {
        &&& self.grid.wf()
        &&& 1 <= self.grid.spec_width()
        &&& 1 <= self.grid.spec_height()
        &&& 1 <= self.size <= MAX_EXTENT
        &&& self.enumerator.wf()
        &&& self.enumerator.spec_width() == self.grid.spec_width()
        &&& self.enumerator.spec_height() == self.grid.spec_height()
    }

    pub closed spec fn spec_grid(&self) -> Grid<T> {
        *self.grid
    }

    pub closed spec fn spec_size(&self) -> int {
        self.size as int
    }

    /// The center of the window yielded next.
    pub closed spec fn spec_front(&self) -> (int, int) {
        self.enumerator.spec_front()
    }

    /// The window at the next center, advancing row-major; exhausted
    /// after the last row.
    pub fn next(&mut self) -> (r: Option<GridWindow<'a, T>>)
        requires
            old(self).wf(),
        ensures
            final (self).wf(),
            final (self).spec_grid() == old(self).spec_grid(),
            final (self).spec_size() == old(self).spec_size(),
            match r {
                Some(w) => {
                    &&& old(self).spec_front().1 < old(self).spec_grid().spec_height()
                    &&& w.wf()
                    &&& w.spec_grid() == old(self).spec_grid()
                    &&& w.spec_size() == old(self).spec_size()
                    &&& w.spec_center() == old(self).spec_front()
                },
                None => old(self).spec_front().1 >= old(self).spec_grid().spec_height(),
            },
    {
        match self.enumerator.next() {
            Some((x, y)) => Some(self.grid.window_at(self.size, (x, y))),
            None => None,
        }
    }
}

/// A borrowed view centered on one coordinate, with relative addressing.
pub struct GridWindow<'a, T> {
    grid: &'a Grid<T>,
    x: usize,
    y: usize,
    size: usize,
}

impl<'a, T> GridWindow<'a, T> {
    pub closed spec fn wf(&self) -> bool {
        &&& self.grid.wf()
        &&& self.grid.spec_contains(self.x as int, self.y as int)
        &&& 1 <= self.size <= MAX_EXTENT
    }

    pub closed spec fn spec_center(&self) -> (int, int) {
        (self.x as int, self.y as int)
    }

    pub closed spec fn spec_size(&self) -> int {
        self.size as int
    }

    pub closed spec fn spec_grid(&self) -> Grid<T> {
        *self.grid
    }

    /// The cell at a relative offset from the center; absent when the
    /// absolute coordinate falls outside the underlying grid.
    pub fn get(&self, x: isize, y: isize) -> (r: Option<&T>)
        requires
            self.wf(),
            -(MAX_EXTENT as isize) <= x <= MAX_EXTENT as isize,
            -(MAX_EXTENT as isize) <= y <= MAX_EXTENT as isize,
        ensures
            match r {
                Some(t) => self.spec_grid().spec_contains(
                    self.spec_center().0 + x,
                    self.spec_center().1 + y,
                ) && *t == self.spec_grid().spec_cell(
                    self.spec_center().0 + x,
                    self.spec_center().1 + y,
                ),
                None => !self.spec_grid().spec_contains(
                    self.spec_center().0 + x,
                    self.spec_center().1 + y,
                ),
            },
    {
        GridLike::get(self.grid, self.x as isize + x, self.y as isize + y)
    }
}

/// A row-major cursor over grid coordinates, usable from both ends:
/// the forward end scans toward higher rows, the reverse end toward
/// lower rows, as structural passes that sweep edge-to-edge need.
pub struct GridEnumerator {
    width: usize,
    height: usize,
    x: usize,
    y: usize,
    rx: usize,
    ry: isize,
}

impl GridEnumerator {
    pub closed spec fn spec_width(&self) -> int {
        self.width as int
    }

    pub closed spec fn spec_height(&self) -> int {
        self.height as int
    }

    /// The coordinate the forward end yields next.
    pub closed spec fn spec_front(&self) -> (int, int) {
        (self.x as int, self.y as int)
    }

    /// The coordinate the reverse end yields next.
    pub closed spec fn spec_back(&self) -> (int, int) {
        (self.rx as int, self.ry as int)
    }

    pub closed spec fn wf(&self) -> bool {
        &&& 1 <= self.width <= MAX_EXTENT
        &&& 1 <= self.height <= MAX_EXTENT
        &&& self.x < self.width
        &&& self.y <= self.height
        &&& self.rx < self.width
        &&& -1 <= self.ry < self.height as int
    }

    /// A cursor over all coordinates of a nonempty grid.
    pub fn new<T, G: GridLike<T>>(grid: &G) -> (r: GridEnumerator)
        requires
            grid.inv(),
            1 <= grid.spec_width() <= MAX_EXTENT,
            1 <= grid.spec_height() <= MAX_EXTENT,
        ensures
            r.wf(),
            r.spec_width() == grid.spec_width(),
            r.spec_height() == grid.spec_height(),
            r.spec_front() == (0int, 0int),
            r.spec_back() == (grid.spec_width() - 1, grid.spec_height() - 1),
    {
        let width = grid.width();
        let height = grid.height();
        GridEnumerator {
            width,
            height,
            x: 0,
            y: 0,
            rx: width - 1,
            ry: height as isize - 1,
        }
    }

    /// The next coordinate in row-major order, if any remains ahead of
    /// the forward end.
    pub fn next(&mut self) -> (r: Option<(usize, usize)>)
        requires
            old(self).wf(),
        ensures
            final (self).wf(),
            final (self).spec_width() == old(self).spec_width(),
            final (self).spec_height() == old(self).spec_height(),
            final (self).spec_back() == old(self).spec_back(),
            old(self).spec_front().1 < old(self).spec_height() ==> {
                &&& r == Some(
                    (
                        old(self).spec_front().0 as usize,
                        old(self).spec_front().1 as usize,
                    ),
                )
                &&& (if old(self).spec_front().0 + 1 < old(self).spec_width() {
                    final (self).spec_front() == (
                        old(self).spec_front().0 + 1,
                        old(self).spec_front().1,
                    )
                } else {
                    final (self).spec_front() == (0int, old(self).spec_front().1 + 1)
                })
            },
            old(self).spec_front().1 >= old(self).spec_height() ==> r.is_none() && final (
            self).spec_front() == old(self).spec_front(),
    {
        if self.y >= self.height {
            return None;
        }
        let ret = (self.x, self.y);
        if self.x + 1 < self.width {
            self.x = self.x + 1;
        } else {
            self.x = 0;
            self.y = self.y + 1;
        }
        Some(ret)
    }

    /// The next coordinate in reverse row-major order, if any remains
    /// behind the reverse end.
    pub fn next_back(&mut self) -> (r: Option<(usize, usize)>)
        requires
            old(self).wf(),
        ensures
            final (self).wf(),
            final (self).spec_width() == old(self).spec_width(),
            final (self).spec_height() == old(self).spec_height(),
            final (self).spec_front() == old(self).spec_front(),
            old(self).spec_back().1 >= 0 ==> {
                &&& r == Some(
                    (old(self).spec_back().0 as usize, old(self).spec_back().1 as usize),
                )
                &&& (if old(self).spec_back().0 >= 1 {
                    final (self).spec_back() == (
                        old(self).spec_back().0 - 1,
                        old(self).spec_back().1,
                    )
                } else {
                    final (self).spec_back() == (
                        old(self).spec_width() - 1,
                        old(self).spec_back().1 - 1,
                    )
                })
            },
            old(self).spec_back().1 < 0 ==> r.is_none() && final (self).spec_back() == old(
                self,
            ).spec_back(),
    {
        if self.ry < 0 {
            return None;
        }
        let ret = (self.rx, self.ry as usize);
        if self.rx >= 1 {
            self.rx = self.rx - 1;
        } else {
            self.rx = self.width - 1;
            self.ry = self.ry - 1;
        }
        Some(ret)
    }
}

/// The present cells of the size-by-size window centered at
/// `(cx, cy)`, with their relative offsets, scanning the first `k`
/// window slots in row-major order.  Absent cells (outside the grid)
/// are skipped.
pub open spec fn spec_window_entries<T>(
    g: Grid<T>,
    cx: int,
    cy: int,
    size: int,
    k: int,
) -> Seq<(isize, isize, T)>
    decreases k,
{
    if k <= 0 {
        Seq::empty()
    } else {
        let dx = (k - 1) % size - size / 2;
        let dy = (k - 1) / size - size / 2;
        let prev = spec_window_entries(g, cx, cy, size, k - 1);
        if g.spec_contains(cx + dx, cy + dy) {
            prev.push((dx as isize, dy as isize, g.spec_cell(cx + dx, cy + dy)))
        } else {
            prev
        }
    }
}

impl<'a, T: Copy> GridWindow<'a, T> {
    /// The present cells of the window, in row-major offset order.
    pub fn iter(&self) -> (r: Vec<T>)
        requires
            self.wf(),
        ensures
            r@.len() == spec_window_entries(
                self.spec_grid(),
                self.spec_center().0,
                self.spec_center().1,
                self.spec_size(),
                self.spec_size() * self.spec_size(),
            ).len(),
            forall|i: int|
                0 <= i < r@.len() ==> #[trigger] r@[i] == spec_window_entries(
                    self.spec_grid(),
                    self.spec_center().0,
                    self.spec_center().1,
                    self.spec_size(),
                    self.spec_size() * self.spec_size(),
                )[i].2,
    {
        let entries = self.enumerate();
        let mut out: Vec<T> = Vec::new();
        let mut i: usize = 0;
        while i < entries.len()
            invariant
                i <= entries@.len(),
                out@.len() == i,
                forall|k: int| 0 <= k < i ==> #[trigger] out@[k] == entries@[k].2,
            decreases entries@.len() - i,
        {
            out.push(entries[i].2);
            i += 1;
        }
        out
    }

    /// The present cells of the window with their relative offsets, in
    /// row-major offset order.
    pub fn enumerate(&self) -> (r: Vec<(isize, isize, T)>)
        requires
            self.wf(),
        ensures
            r@ == spec_window_entries(
                self.spec_grid(),
                self.spec_center().0,
                self.spec_center().1,
                self.spec_size(),
                self.spec_size() * self.spec_size(),
            ),
    {
        let ghost g = self.spec_grid();
        let ghost cx = self.spec_center().0;
        let ghost cy = self.spec_center().1;
        let ghost gs = self.spec_size();
        let size = self.size;
        proof {
            assert(size * size <= MAX_EXTENT * MAX_EXTENT) by (nonlinear_arith)
                requires
                    1 <= size <= MAX_EXTENT,
            ;
        }
        let total: usize = size * size;
        let half: usize = size / 2;
        let mut out: Vec<(isize, isize, T)> = Vec::new();
        let mut i: usize = 0;
        while i < total
            invariant
                self.wf(),
                g == self.spec_grid(),
                cx == self.spec_center().0,
                cy == self.spec_center().1,
                gs == self.spec_size(),
                size == gs,
                1 <= size <= MAX_EXTENT,
                total == size * size,
                half == size / 2,
                i <= total,
                out@ == spec_window_entries(g, cx, cy, gs, i as int),
            decreases total - i,
        {
            proof {
                assert(i as int % gs == (i % size) as int);
                assert(i as int / gs == (i / size) as int);
                assert(0 <= i as int / gs < gs) by (nonlinear_arith)
                    requires
                        0 <= i as int,
                        (i as int) < gs * gs,
                        1 <= gs,
                ;
            }
            let dx: isize = (i % size) as isize - half as isize;
            let dy: isize = (i / size) as isize - half as isize;
            match self.get(dx, dy) {
                Some(t) => {
                    out.push((dx, dy, *t));
                },
                None => {},
            }
            i += 1;
        }
        out
    }
}

/// Relies on std::array::from_fn, applied rowwise and columnwise: each
/// element of the result is what the callback returns at its indices.
#[verifier::external_body]
fn array_2d_from_fn<T, const W: usize, const H: usize, F: Fn(usize, usize) -> T>(init: F) -> (r:
    [[T; W]; H])
    requires
        forall|x: usize, y: usize| x < W && y < H ==> call_requires(init, (x, y)),
    ensures
        forall|x: int, y: int|
            0 <= x < W && 0 <= y < H ==> call_ensures(
                init,
                (x as usize, y as usize),
                #[trigger] r@[y]@[x],
            ),
{
    std::array::from_fn(|y| std::array::from_fn(|x| init(x, y)))
}

/// A dense 2D container of static extent, stored as nested arrays.
#[derive(Debug, Clone)]
pub struct ArrayGrid<T, const W: usize, const H: usize> {
    cells: [[T; W]; H],
}

impl<T, const W: usize, const H: usize> ArrayGrid<T, W, H> {
    pub closed spec fn spec_cell(&self, x: int, y: int) -> T {
        self.cells@[y]@[x]
    }

    pub open spec fn spec_contains(&self, x: int, y: int) -> bool {
        0 <= x < W && 0 <= y < H
    }

    /// The static extents stay small enough for exact index arithmetic.
    pub open spec fn extents_ok() -> bool {
        W <= MAX_EXTENT && H <= MAX_EXTENT
    }

    /// Build a grid by calling `init` at every coordinate.
    pub fn new<F: Fn(usize, usize) -> T>(init: F) -> (r: ArrayGrid<T, W, H>)
        requires
            forall|x: usize, y: usize| x < W && y < H ==> call_requires(init, (x, y)),
        ensures
            forall|x: int, y: int|
                0 <= x < W && 0 <= y < H ==> call_ensures(
                    init,
                    (x as usize, y as usize),
                    #[trigger] r.spec_cell(x, y),
                ),
    {
        ArrayGrid { cells: array_2d_from_fn(init) }
    }

    /// Wrap existing rows.
    pub fn from_cells(cells: [[T; W]; H]) -> (r: ArrayGrid<T, W, H>)
        ensures
            forall|x: int, y: int|
                0 <= x < W && 0 <= y < H ==> #[trigger] r.spec_cell(x, y) == cells@[y]@[x],
    {
        ArrayGrid { cells }
    }

    /// All cells in row-major order.
    pub fn iter(&self) -> (r: Vec<T>) where T: Copy
        requires
            Self::extents_ok(),
        ensures
            r@.len() == W * H,
            forall|k: int|
                0 <= k < r@.len() ==> #[trigger] r@[k] == self.spec_cell(
                    k % (W as int),
                    k / (W as int),
                ),
    {
        let mut out: Vec<T> = Vec::new();
        let mut y: usize = 0;
        while y < H
            invariant
                Self::extents_ok(),
                y <= H,
                out@.len() == y * W,
                forall|k: int|
                    0 <= k < out@.len() ==> #[trigger] out@[k] == self.spec_cell(
                        k % (W as int),
                        k / (W as int),
                    ),
            decreases H - y,
        {
            let mut x: usize = 0;
            while x < W
                invariant
                    Self::extents_ok(),
                    y < H,
                    x <= W,
                    out@.len() == y * W + x,
                    forall|k: int|
                        0 <= k < out@.len() ==> #[trigger] out@[k] == self.spec_cell(
                            k % (W as int),
                            k / (W as int),
                        ),
                decreases W - x,
            {
                proof {
                    lemma_rm_index(W as int, H as int, x as int, y as int);
                }
                out.push(self.cells[y][x]);
                x += 1;
            }
            y += 1;
            proof {
                assert(y * W == (y - 1) * W + W) by (nonlinear_arith);
            }
        }
        proof {
            assert(H * W == W * H) by (nonlinear_arith);
        }
        out
    }

    /// Every cell with its coordinates, row-major.
    pub fn enumerate(&self) -> (r: Vec<(usize, usize, T)>) where T: Copy
        requires
            Self::extents_ok(),
        ensures
            r@.len() == W * H,
            forall|k: int|
                0 <= k < r@.len() ==> #[trigger] r@[k] == (
                    (k % (W as int)) as usize,
                    (k / (W as int)) as usize,
                    self.spec_cell(k % (W as int), k / (W as int)),
                ),
    {
        let mut out: Vec<(usize, usize, T)> = Vec::new();
        let mut y: usize = 0;
        while y < H
            invariant
                Self::extents_ok(),
                y <= H,
                out@.len() == y * W,
                forall|k: int|
                    0 <= k < out@.len() ==> #[trigger] out@[k] == (
                        (k % (W as int)) as usize,
                        (k / (W as int)) as usize,
                        self.spec_cell(k % (W as int), k / (W as int)),
                    ),
            decreases H - y,
        {
            let mut x: usize = 0;
            while x < W
                invariant
                    Self::extents_ok(),
                    y < H,
                    x <= W,
                    out@.len() == y * W + x,
                    forall|k: int|
                        0 <= k < out@.len() ==> #[trigger] out@[k] == (
                            (k % (W as int)) as usize,
                            (k / (W as int)) as usize,
                            self.spec_cell(k % (W as int), k / (W as int)),
                        ),
                decreases W - x,
            {
                proof {
                    lemma_rm_index(W as int, H as int, x as int, y as int);
                }
                out.push((x, y, self.cells[y][x]));
                x += 1;
            }
            y += 1;
            proof {
                assert(y * W == (y - 1) * W + W) by (nonlinear_arith);
            }
        }
        proof {
            assert(H * W == W * H) by (nonlinear_arith);
        }
        out
    }

    /// Overwrite every cell with the same value.
    pub fn fill(&mut self, t: T) where T: Copy
        ensures
            forall|x: int, y: int|
                0 <= x < W && 0 <= y < H ==> #[trigger] final (self).spec_cell(x, y) == t,
    {
        let mut y: usize = 0;
        while y < H
            invariant
                y <= H,
                forall|x2: int, y2: int|
                    0 <= x2 < W && 0 <= y2 < y ==> #[trigger] self.spec_cell(x2, y2) == t,
            decreases H - y,
        {
            let mut x: usize = 0;
            while x < W
                invariant
                    y < H,
                    x <= W,
                    forall|x2: int, y2: int|
                        0 <= x2 < W && 0 <= y2 < y ==> #[trigger] self.spec_cell(x2, y2) == t,
                    forall|x2: int|
                        0 <= x2 < x ==> #[trigger] self.spec_cell(x2, y as int) == t,
                decreases W - x,
            {
                let ghost prev = *self;
                self.cells[y][x] = t;
                proof {
                    assert forall|x2: int, y2: int|
                        0 <= x2 < W && 0 <= y2 < y implies #[trigger] self.spec_cell(x2, y2)
                        == t by {
                        assert(prev.spec_cell(x2, y2) == t);
                        assert(self.cells@[y2] == prev.cells@[y2]);
                    }
                    assert forall|x2: int|
                        0 <= x2 < x + 1 implies #[trigger] self.spec_cell(x2, y as int) == t by {
                        if x2 < x {
                            assert(prev.spec_cell(x2, y as int) == t);
                        }
                    }
                }
                x += 1;
            }
            y += 1;
        }
    }

    /// Mutable access to a cell; absent for out-of-range coordinates.
    pub fn get_mut(&mut self, x: isize, y: isize) -> (r: Option<&mut T>)
        requires
            Self::extents_ok(),
        ensures
            match r {
                Some(t) => {
                    &&& old(self).spec_contains(x as int, y as int)
                    &&& *t == old(self).spec_cell(x as int, y as int)
                    &&& final (self).spec_cell(x as int, y as int) == *final (t)
                    &&& forall|x2: int, y2: int|
                        final (self).spec_contains(x2, y2) && (x2, y2) != (x as int, y as int)
                            ==> #[trigger] final (self).spec_cell(x2, y2) == old(self).spec_cell(
                            x2,
                            y2,
                        )
                },
                None => {
                    &&& !old(self).spec_contains(x as int, y as int)
                    &&& *final (self) == *old(self)
                },
            },
    {
        if x < 0 || y < 0 || x >= W as isize || y >= H as isize {
            return None;
        }
        Some(&mut self.cells[y as usize][x as usize])
    }
}

impl<T, const W: usize, const H: usize> GridLike<T> for ArrayGrid<T, W, H> {
    open spec fn inv(&self) -> bool {
        Self::extents_ok()
    }

    open spec fn spec_width(&self) -> int {
        W as int
    }

    open spec fn spec_height(&self) -> int {
        H as int
    }

    open spec fn spec_cell(&self, x: int, y: int) -> T {
        ArrayGrid::<T, W, H>::spec_cell(self, x, y)
    }

    fn width(&self) -> (r: usize) {
        W
    }

    fn height(&self) -> (r: usize) {
        H
    }

    fn get(&self, x: isize, y: isize) -> (r: Option<&T>) {
        if x < 0 || y < 0 || x >= W as isize || y >= H as isize {
            return None;
        }
        let row: &[T; W] = &self.cells[y as usize];
        Some(&row[x as usize])
    }
}

} // verus!
