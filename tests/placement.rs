use maze_arena::grid::{EntityType, OccupancyGrid};
use maze_arena::placement::{grid_to_world_xy, mark_neighborhood_units, pick_cells, pick_positions_for, spawn_agent_position};
use maze_arena::truth::{clear_cells, spawn_walls};

fn sq_cell_dist(a: usize, b: usize, w: usize, cs: i64) -> i64 {
    let dc = (a % w) as i64 - (b % w) as i64;
    let dr = (a / w) as i64 - (b / w) as i64;
    (dc * cs) * (dc * cs) + (dr * cs) * (dr * cs)
}

fn open_grid(w: usize, h: usize, cs: u32) -> OccupancyGrid {
    let mut g = OccupancyGrid::new(w, h, cs);
    clear_cells(&mut g, false);
    g
}

#[test]
fn neighborhood_is_a_disk() {
    let mut blocked = vec![false; 49];
    mark_neighborhood_units(&mut blocked, 24, 7, 7, 1000, 2000);
    for j in 0..49 {
        let expect = sq_cell_dist(j, 24, 7, 1000) <= 4_000_000;
        assert_eq!(blocked[j], expect, "cell {}", j);
    }
    assert_eq!(blocked.iter().filter(|b| **b).count(), 13);
}

#[test]
fn neighborhood_is_cut_at_the_edge() {
    let mut blocked = vec![false; 9];
    blocked[8] = true;
    mark_neighborhood_units(&mut blocked, 0, 3, 3, 1000, 1000);
    assert_eq!(blocked, vec![true, true, false, true, false, false, false, false, true]);
}

#[test]
fn world_coordinates_of_cell_centres() {
    assert_eq!(grid_to_world_xy(0, 0, 5000, 100_000, 100_000), (-47_500, -47_500));
    assert_eq!(grid_to_world_xy(19, 10, 5000, 100_000, 100_000), (47_500, 2_500));
}

#[test]
fn placement_in_open_grid_places_all_and_keeps_spacing() {
    let mut g = open_grid(10, 10, 1000);
    let picked = pick_cells(&mut g, 2500, 5, EntityType::Flag, 7);
    assert_eq!(picked.len(), 5);
    for (s, &a) in picked.iter().enumerate() {
        assert_eq!(g.entry_at(a).assignment, Some(EntityType::Flag));
        for &b in picked.iter().skip(s + 1) {
            assert!(sq_cell_dist(a, b, 10, 1000) > 2500 * 2500);
        }
    }
    let flags = (0..100).filter(|&i| g.entry_at(i).assignment == Some(EntityType::Flag)).count();
    assert_eq!(flags, 5);
}

#[test]
fn placement_keeps_clear_of_walls_and_existing_items() {
    let mut g = open_grid(12, 12, 1000);
    for i in 0..12 {
        g.stamp_at(i, EntityType::Wall);
        g.stamp_at(i * 12, EntityType::Wall);
    }
    g.stamp_at(6 * 12 + 6, EntityType::CapturePoint);
    let picked = pick_cells(&mut g, 2000, 10, EntityType::Flag, 3);
    for &p in &picked {
        for o in 0..144 {
            let t = g.entry_at(o).assignment;
            if o != p && (t == Some(EntityType::Wall) || t == Some(EntityType::CapturePoint)) {
                assert!(sq_cell_dist(p, o, 12, 1000) > 2000 * 2000);
            }
        }
    }
}

#[test]
fn placement_short_of_room_returns_partial_list() {
    let mut g = open_grid(3, 3, 1000);
    let picked = pick_cells(&mut g, 5000, 4, EntityType::CapturePoint, 11);
    assert_eq!(picked.len(), 1);
    let mut walls = OccupancyGrid::new(4, 4, 1000);
    for i in 0..16 {
        walls.stamp_at(i, EntityType::Wall);
    }
    assert!(pick_cells(&mut walls, 1000, 3, EntityType::Flag, 1).is_empty());
}

#[test]
fn placement_depends_on_the_seed_alone() {
    let mut a = open_grid(10, 10, 1000);
    let mut b = open_grid(10, 10, 1000);
    let mut c = open_grid(10, 10, 1000);
    let pa = pick_cells(&mut a, 0, 10, EntityType::Flag, 1);
    let pb = pick_cells(&mut b, 0, 10, EntityType::Flag, 1);
    let pc = pick_cells(&mut c, 0, 10, EntityType::Flag, 2);
    assert_eq!(pa, pb);
    assert_ne!(pa, pc);
    let in_order: Vec<usize> = (0..10).collect();
    assert_ne!(pa, in_order);
}

#[test]
fn flag_and_capture_point_on_a_twenty_by_twenty_grid() {
    let mut g = OccupancyGrid::new(20, 20, 5000);
    clear_cells(&mut g, false);
    for i in 0..20 {
        g.stamp_at(i, EntityType::Wall);
        g.stamp_at(380 + i, EntityType::Wall);
        g.stamp_at(i * 20, EntityType::Wall);
        g.stamp_at(i * 20 + 19, EntityType::Wall);
    }
    let flags = pick_positions_for(&mut g, 3000, 1, EntityType::Flag, 42, 100_000, 100_000);
    let points = pick_positions_for(&mut g, 3000, 1, EntityType::CapturePoint, 42, 100_000, 100_000);
    assert_eq!(flags.len(), 1);
    assert_eq!(points.len(), 1);
    let (f, p) = (flags[0], points[0]);
    let dx = (f.x - p.x) as f64;
    let dz = (f.z - p.z) as f64;
    assert!((dx * dx + dz * dz).sqrt() >= 3000.0);
    for o in 0..400 {
        if g.entry_at(o).assignment == Some(EntityType::Wall) {
            assert!(sq_cell_dist(f.cell, o, 20, 5000) >= 3000 * 3000);
            assert!(sq_cell_dist(p.cell, o, 20, 5000) >= 3000 * 3000);
        }
    }
    assert_eq!(grid_to_world_xy(f.cell % 20, f.cell / 20, 5000, 100_000, 100_000), (f.x, f.z));
}

#[test]
fn placement_in_a_carved_maze() {
    let mut g = OccupancyGrid::new(100, 100, 1000);
    let segs = spawn_walls(&mut g, 42, 100_000, 100_000, 5000, 1000);
    assert_eq!(segs.len(), 441);
    // corridors are three cells wide: no cell is farther than two units from a wall
    let mut again = OccupancyGrid::new(100, 100, 1000);
    spawn_walls(&mut again, 42, 100_000, 100_000, 5000, 1000);
    assert!(pick_cells(&mut again, 3000, 1, EntityType::Flag, 42).is_empty());
    let flags = pick_positions_for(&mut g, 1500, 1, EntityType::Flag, 42, 100_000, 100_000);
    let points = pick_positions_for(&mut g, 1500, 1, EntityType::CapturePoint, 42, 100_000, 100_000);
    assert_eq!(flags.len(), 1);
    assert_eq!(points.len(), 1);
    assert!(sq_cell_dist(flags[0].cell, points[0].cell, 100, 1000) > 1500 * 1500);
    for o in 0..10_000 {
        if g.entry_at(o).assignment == Some(EntityType::Wall) {
            assert!(sq_cell_dist(flags[0].cell, o, 100, 1000) > 1500 * 1500);
            assert!(sq_cell_dist(points[0].cell, o, 100, 1000) > 1500 * 1500);
        }
    }
}

#[test]
fn agent_spawns_on_an_empty_cell() {
    let mut g = OccupancyGrid::new(4, 4, 1000);
    assert!(spawn_agent_position(&g, 5, 4000, 4000).is_none());
    g.stamp_at(6, EntityType::Empty);
    let p = spawn_agent_position(&g, 5, 4000, 4000).unwrap();
    assert_eq!(p.cell, 6);
    assert_eq!((p.x, p.z), (500, -500));
    let open = open_grid(6, 6, 1000);
    let q = spawn_agent_position(&open, 9, 6000, 6000).unwrap();
    assert_eq!(open.entry_at(q.cell).assignment, Some(EntityType::Empty));
}
