use flatland::grid::{ArrayGrid, Grid, GridEnumerator, GridLike};
use flatland::pageflip::PageFlip;

#[test]
fn grid_get_is_bounds_checked() {
    let g: Grid<u32> = Grid::from_cells(3, 2, vec![1, 2, 3, 4, 5, 6]);
    assert_eq!(g.get(0, 0), Some(&1));
    assert_eq!(g.get(2, 1), Some(&6));
    assert_eq!(g.get(-1, 0), None);
    assert_eq!(g.get(0, -1), None);
    assert_eq!(g.get(3, 0), None);
    assert_eq!(g.get(0, 2), None);
}

#[test]
fn grid_new_is_row_major() {
    let g: Grid<usize> = Grid::new(3, 2, |x, y| 10 * y + x);
    assert_eq!(g.iter().as_slice(), &[0, 1, 2, 10, 11, 12]);
}

#[test]
fn grid_fill_and_get_mut() {
    let mut g: Grid<u8> = Grid::new(2, 2, |_, _| 0);
    g.fill(7);
    assert_eq!(g.iter().as_slice(), &[7, 7, 7, 7]);
    if let Some(c) = g.get_mut(1, 0) {
        *c = 9;
    }
    assert_eq!(g.get(1, 0), Some(&9));
    assert!(g.get_mut(5, 5).is_none());
}

#[test]
fn grid_enumerate_yields_coordinates() {
    let g: Grid<u8> = Grid::from_cells(2, 2, vec![4, 5, 6, 7]);
    let e = g.enumerate();
    assert_eq!(e, vec![(0, 0, 4), (1, 0, 5), (0, 1, 6), (1, 1, 7)]);
}

#[test]
fn grid_enumerator_walks_both_ways() {
    let g: Grid<u8> = Grid::from_cells(2, 2, vec![0, 0, 0, 0]);
    let mut fwd = GridEnumerator::new(&g);
    let mut got = Vec::new();
    while let Some(p) = fwd.next() {
        got.push(p);
    }
    assert_eq!(got, vec![(0, 0), (1, 0), (0, 1), (1, 1)]);
    let mut rev = GridEnumerator::new(&g);
    let mut back = Vec::new();
    while let Some(p) = rev.next_back() {
        back.push(p);
    }
    assert_eq!(back, vec![(1, 1), (0, 1), (1, 0), (0, 0)]);
}

#[test]
fn window_skips_absent_cells() {
    let g: Grid<u8> = Grid::from_cells(3, 3, vec![1, 2, 3, 4, 5, 6, 7, 8, 9]);
    let w = g.window_at(3, (0, 0));
    // the window at the corner sees only the four in-bounds cells
    assert_eq!(w.iter(), vec![1, 2, 4, 5]);
    assert_eq!(
        w.enumerate(),
        vec![(0, 0, 1), (1, 0, 2), (0, 1, 4), (1, 1, 5)]
    );
    let c = g.window_at(3, (1, 1));
    assert_eq!(c.iter(), vec![1, 2, 3, 4, 5, 6, 7, 8, 9]);
    assert_eq!(c.get(-1, -1), Some(&1));
    assert_eq!(c.get(1, 1), Some(&9));
}

#[test]
fn pageflip_swaps_roles() {
    let mut pf: PageFlip<u32> = PageFlip::new(|| 0);
    *pf.write() = 5;
    assert_eq!(*pf.read(), 0);
    pf.flip();
    assert_eq!(*pf.read(), 5);
    *pf.write() = 6;
    assert_eq!(*pf.read(), 5);
    pf.flip();
    assert_eq!(*pf.read(), 6);
}

#[test]
fn array_grid_mirrors_grid_behavior() {
    let mut a: ArrayGrid<u8, 2, 2> = ArrayGrid::from_cells([[1, 2], [3, 4]]);
    assert_eq!(a.get(0, 0), Some(&1));
    assert_eq!(a.get(1, 1), Some(&4));
    assert_eq!(a.get(2, 0), None);
    assert_eq!(a.get(-1, 0), None);
    assert_eq!(a.iter(), vec![1, 2, 3, 4]);
    assert_eq!(a.enumerate(), vec![(0, 0, 1), (1, 0, 2), (0, 1, 3), (1, 1, 4)]);
    if let Some(c) = a.get_mut(0, 1) {
        *c = 9;
    }
    assert_eq!(a.get(0, 1), Some(&9));
    a.fill(5);
    assert_eq!(a.iter(), vec![5, 5, 5, 5]);
    let b: ArrayGrid<usize, 3, 2> = ArrayGrid::new(|x, y| 10 * y + x);
    assert_eq!(b.iter(), vec![0, 1, 2, 10, 11, 12]);
    assert_eq!(b.width(), 3);
    assert_eq!(b.height(), 2);
}

#[test]
fn windows_visit_every_cell() {
    let g: Grid<u8> = Grid::from_cells(2, 2, vec![1, 2, 3, 4]);
    let mut ws = g.windows(3);
    let mut centers = Vec::new();
    let mut sums = Vec::new();
    while let Some(w) = ws.next() {
        let cells = w.iter();
        centers.push(cells.len());
        sums.push(cells.iter().map(|v| *v as u32).sum::<u32>());
    }
    // every 3x3 window of a 2x2 grid sees all four cells
    assert_eq!(centers, vec![4, 4, 4, 4]);
    assert_eq!(sums, vec![10, 10, 10, 10]);
}
