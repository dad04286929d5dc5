use distance_transform::grid::{Cell, CellGrid, OutValue, SqDist};
use distance_transform::model::ScanDir;
use distance_transform::scan::{distance_transform, finalize, initialize, scan};

fn grid_from(rows: usize, cols: usize, cells: &[Cell]) -> CellGrid {
    assert_eq!(cells.len(), rows * cols);
    let mut g = CellGrid::new(rows, cols, Cell::Background);
    for r in 0..rows {
        for c in 0..cols {
            g.set(r, c, cells[r * cols + c]);
        }
    }
    g
}

fn ground_distance(v: OutValue, cell_size: f64) -> f64 {
    match v {
        OutValue::Missing => f64::NAN,
        OutValue::Infinite => f64::INFINITY,
        OutValue::Finite(sq) => (sq as f64).sqrt() * cell_size,
    }
}

#[test]
fn single_center_target() {
    // 3x3 grid, cell size 1, single target at the center: corners are
    // sqrt(2) away, edge midpoints 1, the center 0.
    let b = Cell::Background;
    let t = Cell::Target;
    let g = grid_from(3, 3, &[b, b, b, b, t, b, b, b, b]);
    let out = distance_transform(&g);
    let expect_sq = [2u64, 1, 2, 1, 0, 1, 2, 1, 2];
    for r in 0..3 {
        for c in 0..3 {
            assert_eq!(out.get(r, c), OutValue::Finite(expect_sq[r * 3 + c]));
        }
    }
    assert!((ground_distance(out.get(0, 0), 1.0) - 1.41421356).abs() < 1e-6);
    assert!((ground_distance(out.get(0, 1), 1.0) - 1.0).abs() < 1e-12);
    assert_eq!(ground_distance(out.get(1, 1), 1.0), 0.0);
}

#[test]
fn row_with_leading_target() {
    // 1x5 row, cell size 2, target at index 0: ground distances are
    // 0, 2, 4, 6, 8.
    let b = Cell::Background;
    let t = Cell::Target;
    let g = grid_from(1, 5, &[t, b, b, b, b]);
    let out = distance_transform(&g);
    let expect_sq = [0u64, 1, 4, 9, 16];
    let expect_ground = [0.0f64, 2.0, 4.0, 6.0, 8.0];
    for c in 0..5 {
        assert_eq!(out.get(0, c), OutValue::Finite(expect_sq[c]));
        assert!((ground_distance(out.get(0, c), 2.0) - expect_ground[c]).abs() < 1e-12);
    }
}

#[test]
fn missing_corner_is_masked() {
    // Same as the single-center-target grid, but with one corner
    // missing: that corner is missing in the output, everything else
    // is unchanged.
    let b = Cell::Background;
    let t = Cell::Target;
    let m = Cell::Missing;
    let g = grid_from(3, 3, &[m, b, b, b, t, b, b, b, b]);
    let out = distance_transform(&g);
    assert_eq!(out.get(0, 0), OutValue::Missing);
    let coords = [(0, 1), (0, 2), (1, 0), (1, 1), (1, 2), (2, 0), (2, 1), (2, 2)];
    let expect = [1u64, 2, 1, 0, 1, 2, 1, 2];
    for (i, (r, c)) in coords.iter().enumerate() {
        assert_eq!(out.get(*r, *c), OutValue::Finite(expect[i]));
    }
}

#[test]
fn all_targets_give_zero() {
    // All-target invariant: every non-missing cell is a target, so
    // every non-missing output cell is 0.
    let t = Cell::Target;
    let m = Cell::Missing;
    let g = grid_from(2, 3, &[t, t, m, t, t, t]);
    let out = distance_transform(&g);
    assert_eq!(out.get(0, 2), OutValue::Missing);
    for (r, c) in [(0, 0), (0, 1), (1, 0), (1, 1), (1, 2)] {
        assert_eq!(out.get(r, c), OutValue::Finite(0));
    }
}

#[test]
fn no_targets_give_infinity() {
    // All-background invariant: with no target anywhere, every
    // non-missing output cell is positive infinity.
    let b = Cell::Background;
    let m = Cell::Missing;
    let g = grid_from(2, 2, &[b, b, m, b]);
    let out = distance_transform(&g);
    assert_eq!(out.get(0, 0), OutValue::Infinite);
    assert_eq!(out.get(0, 1), OutValue::Infinite);
    assert_eq!(out.get(1, 0), OutValue::Missing);
    assert_eq!(out.get(1, 1), OutValue::Infinite);
    assert!(ground_distance(out.get(0, 0), 1.0).is_infinite());
}

#[test]
fn missing_next_to_target_stays_missing() {
    // Missing-data propagation: a missing cell stays missing even
    // with a target right beside it.
    let b = Cell::Background;
    let t = Cell::Target;
    let m = Cell::Missing;
    let g = grid_from(1, 3, &[t, m, b]);
    let out = distance_transform(&g);
    assert_eq!(out.get(0, 0), OutValue::Finite(0));
    assert_eq!(out.get(0, 1), OutValue::Missing);
    assert_eq!(out.get(0, 2), OutValue::Finite(4));
}

#[test]
fn backward_scan_only_lowers() {
    // Monotonic correction: after the backward scan, every cell's
    // squared distance is at most what the forward scan left.
    let b = Cell::Background;
    let t = Cell::Target;
    let g = grid_from(3, 4, &[b, b, b, b, b, b, b, t, b, b, b, b]);
    let mut work = initialize(&g);
    scan(&mut work, ScanDir::Forward);
    let after_forward: Vec<SqDist> = work.sq.clone();
    scan(&mut work, ScanDir::Backward);
    for k in 0..12 {
        match (work.sq[k], after_forward[k]) {
            (SqDist::Infinite, SqDist::Finite(_)) => panic!("raised to infinity"),
            (SqDist::Finite(a), SqDist::Finite(bv)) => assert!(a <= bv),
            _ => {}
        }
    }
    let out = finalize(&g, &work);
    assert_eq!(out.get(1, 3), OutValue::Finite(0));
}

#[test]
fn rotated_grid_rotates_output() {
    // Point symmetry: a grid whose targets are symmetric under a 180
    // degree rotation yields a rotationally symmetric distance grid.
    let b = Cell::Background;
    let t = Cell::Target;
    let m = Cell::Missing;
    let g = grid_from(3, 4, &[t, b, b, m, b, b, b, b, m, b, b, t]);
    let out = distance_transform(&g);
    let n = 12;
    for k in 0..n {
        let (r, c) = (k / 4, k % 4);
        let (r2, c2) = (2 - r, 3 - c);
        assert_eq!(out.get(r, c), out.get(r2, c2));
    }
}

#[test]
fn bounded_read_outside_is_missing() {
    let g = CellGrid::new(2, 2, Cell::Target);
    assert_eq!(g.get(-1, 0), Cell::Missing);
    assert_eq!(g.get(0, -1), Cell::Missing);
    assert_eq!(g.get(2, 0), Cell::Missing);
    assert_eq!(g.get(0, 2), Cell::Missing);
    assert_eq!(g.get(1, 1), Cell::Target);
}

#[test]
fn empty_grid() {
    let g = CellGrid::new(0, 0, Cell::Background);
    let out = distance_transform(&g);
    assert_eq!(out.rows, 0);
    assert_eq!(out.cols, 0);
    assert_eq!(out.data.len(), 0);
}

#[test]
fn single_cell_grids() {
    let gt = CellGrid::new(1, 1, Cell::Target);
    assert_eq!(distance_transform(&gt).get(0, 0), OutValue::Finite(0));
    let gb = CellGrid::new(1, 1, Cell::Background);
    assert_eq!(distance_transform(&gb).get(0, 0), OutValue::Infinite);
    let gm = CellGrid::new(1, 1, Cell::Missing);
    assert_eq!(distance_transform(&gm).get(0, 0), OutValue::Missing);
}

#[test]
fn two_targets_nearest_wins() {
    // 1x7 row with targets at both ends: each cell takes the nearer
    // end, the middle cell is 3 from either.
    let b = Cell::Background;
    let t = Cell::Target;
    let g = grid_from(1, 7, &[t, b, b, b, b, b, t]);
    let out = distance_transform(&g);
    let expect = [0u64, 1, 4, 9, 4, 1, 0];
    for c in 0..7 {
        assert_eq!(out.get(0, c), OutValue::Finite(expect[c]));
    }
}

#[test]
fn corner_target_reaches_every_cell() {
    // A single target in the bottom-right corner: the forward scan
    // alone sees almost nothing, the backward scan must fill the
    // whole grid. With one target the result is the exact squared
    // Euclidean distance everywhere.
    let mut g = CellGrid::new(4, 5, Cell::Background);
    g.set(3, 4, Cell::Target);
    let out = distance_transform(&g);
    for r in 0..4usize {
        for c in 0..5usize {
            let dr = 3 - r as i64;
            let dc = 4 - c as i64;
            let expect = (dr * dr + dc * dc) as u64;
            assert_eq!(out.get(r, c), OutValue::Finite(expect));
        }
    }
}
