use slam_core::occupancy::OccupancyGrid;

#[test]
fn test_ray_update() {
    let grid: OccupancyGrid<f64> = OccupancyGrid::new(100, 100, 0.0);
    let ray = grid.trace_ray(10, 10, 30, 10);
    // Endpoint should be occupied
    assert_eq!(ray.hit, Some((30, 10)));
    // Cells along the way should be free
    assert!(ray.free.contains(&(20, 10)));
}

#[test]
fn test_world_to_cell_conversion() {
    let grid: OccupancyGrid<f64> = OccupancyGrid::new(100, 100, 0.0);
    let resolution = 0.5f64;
    let (cx, cy) = grid.clamp_to_grid((5.0f64 / resolution) as usize, (7.0f64 / resolution) as usize);
    assert_eq!(cx, 10);
    assert_eq!(cy, 14);
}

#[test]
fn ray_along_a_row_passes_every_cell_before_the_end() {
    let grid: OccupancyGrid<f64> = OccupancyGrid::new(100, 100, 0.0);
    let ray = grid.trace_ray(10, 10, 30, 10);
    let expected: Vec<(usize, usize)> = (10..30).map(|x| (x, 10)).collect();
    assert_eq!(ray.free, expected);
}

#[test]
fn ray_to_its_own_cell_only_hits_it() {
    let grid: OccupancyGrid<u8> = OccupancyGrid::new(5, 5, 0);
    let ray = grid.trace_ray(2, 3, 2, 3);
    assert!(ray.free.is_empty());
    assert_eq!(ray.hit, Some((2, 3)));
}

#[test]
fn ray_from_outside_the_grid_marks_nothing() {
    let grid: OccupancyGrid<u8> = OccupancyGrid::new(5, 5, 0);
    let ray = grid.trace_ray(7, 1, 1, 1);
    assert!(ray.free.is_empty());
    assert_eq!(ray.hit, None);
}

#[test]
fn ray_leaving_the_grid_stops_at_the_border() {
    let grid: OccupancyGrid<u8> = OccupancyGrid::new(10, 10, 0);
    let ray = grid.trace_ray(5, 5, 20, 5);
    assert_eq!(ray.free, vec![(5, 5), (6, 5), (7, 5), (8, 5), (9, 5)]);
    assert_eq!(ray.hit, None);
}

#[test]
fn steep_ray_passes_max_extent_cells_through_touching_cells() {
    let grid: OccupancyGrid<u8> = OccupancyGrid::new(10, 10, 0);
    let ray = grid.trace_ray(0, 0, 3, 7);
    assert_eq!(ray.free.len(), 7);
    assert_eq!(ray.free[0], (0, 0));
    assert_eq!(ray.hit, Some((3, 7)));
    let mut path = ray.free.clone();
    path.push(ray.hit.unwrap());
    for w in path.windows(2) {
        let (a, b) = (w[0], w[1]);
        assert!(a != b);
        assert!((a.0 as i64 - b.0 as i64).abs() <= 1);
        assert!((a.1 as i64 - b.1 as i64).abs() <= 1);
    }
}

#[test]
fn ray_walks_backwards_along_a_diagonal() {
    let grid: OccupancyGrid<u8> = OccupancyGrid::new(10, 10, 0);
    let ray = grid.trace_ray(9, 9, 6, 6);
    assert_eq!(ray.free, vec![(9, 9), (8, 8), (7, 7)]);
    assert_eq!(ray.hit, Some((6, 6)));
}

#[test]
fn test_grid_creation() {
    let grid: OccupancyGrid<f64> = OccupancyGrid::new(100, 100, 0.0);
    // All cells should be unknown (p=0.5)
    let lo = grid.cell(50, 50).unwrap();
    assert!((1.0 - 1.0 / (1.0 + lo.exp()) - 0.5).abs() < 1e-9);
    assert_eq!(grid.width(), 100);
    assert_eq!(grid.height(), 100);
    assert_eq!(grid.cell(50, 50), Some(0.0));
    assert_eq!(grid.cell(99, 99), Some(0.0));
    assert_eq!(grid.cell(0, 100), None);
}

#[test]
fn cells_are_stored_row_by_row() {
    let mut grid: OccupancyGrid<u8> = OccupancyGrid::new(3, 2, 0);
    grid.update(0, 1, 7);
    assert_eq!(grid.cell(0, 1), Some(7));
    // Position 1 * 3 + 0 is also reached as (3, 0).
    assert_eq!(grid.cell(3, 0), Some(7));
    assert_eq!(grid.cell(usize::MAX, usize::MAX), None);
}

#[test]
fn update_outside_the_grid_changes_nothing() {
    let mut grid: OccupancyGrid<u8> = OccupancyGrid::new(3, 2, 0);
    grid.update(3, 0, 9);
    grid.update(0, 2, 9);
    for y in 0..2 {
        for x in 0..3 {
            assert_eq!(grid.cell(x, y), Some(0));
        }
    }
}

#[test]
fn write_then_read_leaves_other_cells_alone() {
    let mut grid: OccupancyGrid<i32> = OccupancyGrid::new(4, 4, -1);
    grid.update(2, 1, 5);
    assert_eq!(grid.cell(2, 1), Some(5));
    assert_eq!(grid.cell(1, 2), Some(-1));
    assert_eq!(grid.cell(2, 2), Some(-1));
}

#[test]
fn test_reset() {
    let mut grid: OccupancyGrid<f64> = OccupancyGrid::new(10, 10, 0.0);
    grid.update(5, 5, 0.7);
    grid.reset(0.0);
    let lo = grid.cell(5, 5).unwrap();
    assert!((1.0 - 1.0 / (1.0 + lo.exp()) - 0.5).abs() < 1e-9);
    for y in 0..10 {
        for x in 0..10 {
            assert_eq!(grid.cell(x, y), Some(0.0));
        }
    }
}

#[test]
fn clamp_to_grid_caps_each_coordinate() {
    let grid: OccupancyGrid<u8> = OccupancyGrid::new(4, 6, 0);
    assert_eq!(grid.clamp_to_grid(2, 3), (2, 3));
    assert_eq!(grid.clamp_to_grid(4, 6), (3, 5));
    assert_eq!(grid.clamp_to_grid(usize::MAX, 0), (3, 0));
}

#[test]
fn in_bounds_checks_both_coordinates() {
    let grid: OccupancyGrid<u8> = OccupancyGrid::new(3, 2, 0);
    assert!(grid.in_bounds(2, 1));
    assert!(!grid.in_bounds(3, 0));
    assert!(!grid.in_bounds(0, 2));
}

#[test]
fn ray_cells_stay_within_half_a_cell_of_the_line() {
    let grid: OccupancyGrid<u8> = OccupancyGrid::new(20, 20, 0);
    let (rx, ry, ex, ey) = (2i64, 13i64, 17i64, 4i64);
    let ray = grid.trace_ray(rx as usize, ry as usize, ex as usize, ey as usize);
    let (dx, dy) = ((ex - rx).abs(), (ey - ry).abs());
    assert_eq!(ray.free.len() as i64, dx.max(dy));
    assert_eq!(ray.hit, Some((17, 4)));
    let mut path = ray.free.clone();
    path.push(ray.hit.unwrap());
    for (x, y) in path {
        let offset = dx * (y as i64 - ry).abs() - dy * (x as i64 - rx).abs();
        assert!((2 * offset).abs() <= dx.max(dy));
    }
}
