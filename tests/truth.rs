use maze_arena::grid::{EntityType, OccupancyGrid};
use maze_arena::maze::WallSegment;
use maze_arena::truth::{clear_cells, mapping_error, overlapping_indexes, update_true_grid, world_to_cell, CellRect};

#[test]
fn box_overlaps_the_cells_it_touches() {
    let r = overlapping_indexes(-500, -500, 500, 500, 100, 100, 1000, 100_000, 100_000);
    assert_eq!(r, Some(CellRect { min_col: 49, max_col: 50, min_row: 49, max_row: 50 }));
    let exact = overlapping_indexes(0, 0, 1000, 1000, 100, 100, 1000, 100_000, 100_000);
    assert_eq!(exact, Some(CellRect { min_col: 50, max_col: 50, min_row: 50, max_row: 50 }));
}

#[test]
fn box_off_the_grid_is_cut_to_the_edge() {
    let r = overlapping_indexes(-90_000, 40_000, -60_000, 90_000, 100, 100, 1000, 100_000, 100_000);
    assert_eq!(r, Some(CellRect { min_col: 0, max_col: 0, min_row: 90, max_row: 99 }));
}

#[test]
fn true_grid_tracks_walls_and_items() {
    let mut g = OccupancyGrid::new(10, 10, 1000);
    clear_cells(&mut g, false);
    g.stamp_at(99, EntityType::Flag);
    let segs = vec![WallSegment { x0: -5000, z0: -5000, x1: 5000, z1: -5000 }];
    let flags = vec![(0i64, 0i64)];
    let points = vec![(3000i64, 3000i64)];
    update_true_grid(&mut g, &segs, &flags, &points, 500, 10_000, 10_000);
    for i in 0..100 {
        let (col, row) = (i % 10, i / 10);
        let expect = if row == 0 {
            EntityType::Wall
        } else if (4..=5).contains(&col) && (4..=5).contains(&row) {
            EntityType::Flag
        } else if (7..=8).contains(&col) && (7..=8).contains(&row) {
            EntityType::CapturePoint
        } else {
            EntityType::Empty
        };
        let e = g.entry_at(i);
        assert_eq!(e.assignment, Some(expect), "cell {}", i);
        let high = match expect {
            EntityType::Empty => e.logit_free,
            EntityType::Wall => e.logit_wall,
            EntityType::Flag => e.logit_flag,
            _ => e.logit_capture_point,
        };
        assert_eq!(high, 6000);
        assert_eq!(e.logit_free + e.logit_wall + e.logit_flag + e.logit_capture_point, -12000);
    }
}

#[test]
fn walls_survive_a_refresh_without_segments() {
    let mut g = OccupancyGrid::new(3, 3, 1000);
    g.stamp_at(4, EntityType::Wall);
    update_true_grid(&mut g, &vec![], &vec![], &vec![], 500, 3000, 3000);
    assert_eq!(g.entry_at(4).assignment, Some(EntityType::Wall));
    assert_eq!(g.entry_at(0).assignment, Some(EntityType::Empty));
}

#[test]
fn mapping_error_counts_misclassified_cells() {
    let mut truth = OccupancyGrid::new(2, 2, 1000);
    truth.stamp_at(0, EntityType::Wall);
    truth.stamp_at(1, EntityType::Empty);
    truth.stamp_at(2, EntityType::Flag);
    let mut estimate = OccupancyGrid::new(2, 2, 1000);
    assert_eq!(mapping_error(&estimate, &truth), (2, 2));
    estimate.stamp_at(0, EntityType::Wall);
    assert_eq!(mapping_error(&estimate, &truth), (1, 2));
    estimate.stamp_at(1, EntityType::Empty);
    assert_eq!(mapping_error(&estimate, &truth), (0, 2));
}

#[test]
fn world_points_map_to_their_cells() {
    assert_eq!(world_to_cell(0, 0, 100, 100, 1000, 100_000, 100_000), Some((50, 50)));
    assert_eq!(world_to_cell(-50_000, 49_999, 100, 100, 1000, 100_000, 100_000), Some((0, 99)));
    assert_eq!(world_to_cell(50_000, 0, 100, 100, 1000, 100_000, 100_000), None);
    assert_eq!(world_to_cell(-50_001, 0, 100, 100, 1000, 100_000, 100_000), None);
    assert_eq!(world_to_cell(-47_500, 2_500, 20, 20, 5000, 100_000, 100_000), Some((0, 10)));
}
