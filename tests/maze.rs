use maze_arena::maze::{generate_wall_segments, segments_from_maze, WallSegment};

#[test]
fn same_seed_gives_same_walls() {
    let a = generate_wall_segments(42, 20, 20, 5000, 500);
    let b = generate_wall_segments(42, 20, 20, 5000, 500);
    assert_eq!(a, b);
    let c = generate_wall_segments(43, 20, 20, 5000, 500);
    assert_ne!(a, c);
}

#[test]
fn carved_maze_is_a_spanning_tree() {
    // borders w + h, plus the 2wh east and south sides less the wh - 1 passages
    for &(w, h) in &[(1usize, 1usize), (2, 3), (20, 20), (7, 4)] {
        let segs = generate_wall_segments(9, w, h, 5000, 500);
        assert_eq!(segs.len(), w + h + w * h + 1, "{}x{}", w, h);
    }
}

#[test]
fn single_cell_maze_walls() {
    let segs = segments_from_maze(&vec![(false, false)], 1, 1, 5000, 500);
    assert_eq!(
        segs,
        vec![
            WallSegment { x0: -2500, z0: -2500, x1: 2500, z1: -2500 },
            WallSegment { x0: -2500, z0: -2500, x1: -2500, z1: 2500 },
            WallSegment { x0: 2500, z0: -2500, x1: 2500, z1: 2500 },
            WallSegment { x0: -2500, z0: 2500, x1: 2500, z1: 2500 },
        ]
    );
}

#[test]
fn passages_leave_out_walls_and_padding_is_kept_inside() {
    // two cells side by side with a passage between them
    let segs = segments_from_maze(&vec![(true, false), (false, false)], 2, 1, 4000, 500);
    assert_eq!(segs.len(), 6);
    assert_eq!(segs[0], WallSegment { x0: -4000, z0: -2000, x1: 500, z1: -2000 });
    assert_eq!(segs[1], WallSegment { x0: -500, z0: -2000, x1: 4000, z1: -2000 });
    assert_eq!(segs[2], WallSegment { x0: -4000, z0: -2000, x1: -4000, z1: 2000 });
    assert_eq!(segs[3], WallSegment { x0: -4000, z0: 2000, x1: 500, z1: 2000 });
    assert_eq!(segs[4], WallSegment { x0: 4000, z0: -2000, x1: 4000, z1: 2000 });
    assert_eq!(segs[5], WallSegment { x0: -500, z0: 2000, x1: 4000, z1: 2000 });
}

#[test]
fn generated_maze_is_enclosed() {
    let (w, h) = (5usize, 4usize);
    let segs = generate_wall_segments(3, w, h, 5000, 500);
    for r in 0..h as i64 {
        let z0 = (-10_000 + r * 5000 - 500).max(-10_000);
        let z1 = (-10_000 + (r + 1) * 5000 + 500).min(10_000);
        assert!(segs.contains(&WallSegment { x0: 12_500, z0, x1: 12_500, z1 }), "east row {}", r);
        assert!(segs.contains(&WallSegment { x0: -12_500, z0, x1: -12_500, z1 }), "west row {}", r);
    }
    for c in 0..w as i64 {
        let x0 = (-12_500 + c * 5000 - 500).max(-12_500);
        let x1 = (-12_500 + (c + 1) * 5000 + 500).min(12_500);
        assert!(segs.contains(&WallSegment { x0, z0: 10_000, x1, z1: 10_000 }), "south column {}", c);
        assert!(segs.contains(&WallSegment { x0, z0: -10_000, x1, z1: -10_000 }), "north column {}", c);
    }
}
