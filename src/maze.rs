//! Seeded maze carving and the wall segments that a carved maze stands for.
use vstd::prelude::*;
use maze_generator::prelude::{Coordinates, Direction, Generator};
use maze_generator::recursive_backtracking::RbGenerator;

verus! {

/// A straight wall from `(x0, z0)` to `(x1, z1)`, in thousandths of a world
/// unit.
#[derive(Clone, Copy, Debug, PartialEq, Eq, Structural)]
pub struct WallSegment {
    pub x0: i64,
    pub z0: i64,
    pub x1: i64,
    pub z1: i64,
}

/// Largest number of maze cells carved in one go: the carving recurses once
/// per cell.
pub const MAX_MAZE_CELLS: usize = 4096;

/// What maze_generator's recursive backtracker, seeded with `seed`, carves on
/// a `width` by `height` maze: for the cell at `x + y * width`, whether it has
/// a passage to the east and whether it has one to the south.
pub uninterp spec fn carved_passages(seed: u32, width: int, height: int) -> Seq<(bool, bool)>;

/// Relies on maze_generator's `RbGenerator::new` with a seed, whose mazes are
/// identical for identical seeds and sizes, and on `Maze::get_field` and
/// `Field::has_passage` to read the passages of each cell. Passages are only
/// carved towards cells inside the maze, so none leads east out of the last
/// column or south out of the last row.
#[verifier::external_body]
fn carve_maze(seed: u32, width: usize, height: usize) -> (r: Vec<(bool, bool)>)
    requires
        1 <= width,
        1 <= height,
        width * height <= MAX_MAZE_CELLS,
    ensures
        r@ == carved_passages(seed, width as int, height as int),
        r@.len() == width * height,
        forall|i: int| 0 <= i < r@.len() && i % (width as int) == width - 1 ==> !(#[trigger] r@[i]).0,
        forall|i: int| 0 <= i < r@.len() && i / (width as int) == height - 1 ==> !(#[trigger] r@[i]).1,
{
    let mut bytes = [0u8; 32];
    bytes[..4].copy_from_slice(&seed.to_le_bytes());
    let maze = RbGenerator::new(Some(bytes)).generate(width as i32, height as i32).unwrap();
    let mut out = Vec::with_capacity(width * height);
    for y in 0..height as i32 {
        for x in 0..width as i32 {
            let f = maze.get_field(&Coordinates::new(x, y)).unwrap();
            out.push((f.has_passage(&Direction::East), f.has_passage(&Direction::South)));
        }
    }
    out
}

/// Coordinate of the low edge of a maze `n` cells of side `cell` across,
/// centred on the origin.
pub open spec fn maze_origin(n: int, cell: int) -> int {
    -((n * cell) / 2)
}

/// The horizontal wall along the north edge of row `row`, under column `col`,
/// lengthened by `pad` at both ends but kept within the maze.
pub open spec fn horizontal_wall(w: int, h: int, cell: int, pad: int, row: int, col: int) -> WallSegment {
    let x0 = maze_origin(w, cell);
    let z0 = maze_origin(h, cell);
    let z = z0 + row * cell;
    let ax = x0 + col * cell - pad;
    let bx = x0 + (col + 1) * cell + pad;
    let xmax = x0 + w * cell;
    WallSegment {
        x0: (if ax < x0 { x0 } else { ax }) as i64,
        z0: z as i64,
        x1: (if bx > xmax { xmax } else { bx }) as i64,
        z1: z as i64,
    }
}

/// The vertical wall along the west edge of column `col`, beside row `row`,
/// lengthened by `pad` at both ends but kept within the maze.
pub open spec fn vertical_wall(w: int, h: int, cell: int, pad: int, col: int, row: int) -> WallSegment {
    let x0 = maze_origin(w, cell);
    let z0 = maze_origin(h, cell);
    let x = x0 + col * cell;
    let az = z0 + row * cell - pad;
    let bz = z0 + (row + 1) * cell + pad;
    let zmax = z0 + h * cell;
    WallSegment {
        x0: x as i64,
        z0: (if az < z0 { z0 } else { az }) as i64,
        x1: x as i64,
        z1: (if bz > zmax { zmax } else { bz }) as i64,
    }
}

/// The walls that cell `i` closes: east where it has no passage east, then
/// south where it has no passage south.
pub open spec fn cell_walls(passages: Seq<(bool, bool)>, w: int, h: int, cell: int, pad: int, i: int) -> Seq<WallSegment> {
    let x = i % w;
    let y = i / w;
    let east = if passages[i].0 { Seq::empty() } else { seq![vertical_wall(w, h, cell, pad, x + 1, y)] };
    let south = if passages[i].1 { Seq::empty() } else { seq![horizontal_wall(w, h, cell, pad, y + 1, x)] };
    east + south
}

/// The walls of the first `k` cells, in order.
pub open spec fn interior_walls(passages: Seq<(bool, bool)>, w: int, h: int, cell: int, pad: int, k: nat) -> Seq<WallSegment>
    decreases k,
{
    if k == 0 {
        Seq::empty()
    } else {
        interior_walls(passages, w, h, cell, pad, (k - 1) as nat) + cell_walls(passages, w, h, cell, pad, k - 1)
    }
}

/// All walls of a `w` by `h` maze with the given passages: the north border,
/// the west border, then the walls of each cell in row-major order.
pub open spec fn maze_segments(passages: Seq<(bool, bool)>, w: int, h: int, cell: int, pad: int) -> Seq<WallSegment> {
    Seq::new(w as nat, |c: int| horizontal_wall(w, h, cell, pad, 0, c))
        + Seq::new(h as nat, |r: int| vertical_wall(w, h, cell, pad, 0, r))
        + interior_walls(passages, w, h, cell, pad, (w * h) as nat)
}

/// The bounds under which every coordinate of a maze fits in an `i64`.
pub open spec fn maze_fits(w: int, h: int, cell: int, pad: int) -> bool {
    &&& cell > 0
    &&& (w + 1) * cell + pad <= i64::MAX
    &&& (h + 1) * cell + pad <= i64::MAX
}

proof fn lemma_count_le_span(n: int, cell: int)
    requires
        n >= 0,
        cell > 0,
    ensures
        n + 1 <= (n + 1) * cell,
{
    assert(n + 1 <= (n + 1) * cell) by (nonlinear_arith)
        requires
            n >= 0,
            cell > 0,
    ;
}

fn origin(n: usize, cell: u32) -> (r: i64)
    requires
        cell > 0,
        (n + 1) * cell <= i64::MAX,
    ensures
        r == maze_origin(n as int, cell as int),
{
    proof {
        assert(n * cell <= (n + 1) * cell) by (nonlinear_arith);
        assert(0 <= n * cell) by (nonlinear_arith);
        assert(n <= n * cell) by (nonlinear_arith)
            requires
                cell > 0,
        ;
    }
    let span: i64 = (n as i64) * (cell as i64);
    -(span / 2)
}

proof fn lemma_mul_le(a: int, b: int, c: int)
    requires
        0 <= a <= b,
        0 <= c,
    ensures
        0 <= a * c <= b * c,
{
    assert(0 <= a * c <= b * c) by (nonlinear_arith)
        requires
            0 <= a <= b,
            0 <= c,
    ;
}

fn push_horizontal(segs: &mut Vec<WallSegment>, w: usize, h: usize, cell: u32, pad: u32, row: usize, col: usize)
    requires
        maze_fits(w as int, h as int, cell as int, pad as int),
        row <= h,
        col < w,
    ensures
        final(segs)@ == old(segs)@.push(horizontal_wall(w as int, h as int, cell as int, pad as int, row as int, col as int)),
{
    proof {
        lemma_mul_le(row as int, h as int + 1, cell as int);
        lemma_mul_le(col as int + 1, w as int + 1, cell as int);
        lemma_mul_le(w as int, w as int + 1, cell as int);
        lemma_mul_le(h as int, h as int + 1, cell as int);
        lemma_mul_le(col as int, w as int + 1, cell as int);
        lemma_mul_le(0, row as int, cell as int);
        lemma_mul_le(0, col as int, cell as int);
        lemma_count_le_span(w as int, cell as int);
        lemma_count_le_span(h as int, cell as int);
    }
    let x0 = origin(w, cell);
    let z0 = origin(h, cell);
    let z = z0 + (row as i64) * (cell as i64);
    let ax = x0 + (col as i64) * (cell as i64) - pad as i64;
    let bx = x0 + ((col + 1) as i64) * (cell as i64) + pad as i64;
    let xmax = x0 + (w as i64) * (cell as i64);
    let a = if ax < x0 { x0 } else { ax };
    let b = if bx > xmax { xmax } else { bx };
    segs.push(WallSegment { x0: a, z0: z, x1: b, z1: z });
}

fn push_vertical(segs: &mut Vec<WallSegment>, w: usize, h: usize, cell: u32, pad: u32, col: usize, row: usize)
    requires
        maze_fits(w as int, h as int, cell as int, pad as int),
        col <= w,
        row < h,
    ensures
        final(segs)@ == old(segs)@.push(vertical_wall(w as int, h as int, cell as int, pad as int, col as int, row as int)),
{
    proof {
        lemma_mul_le(col as int, w as int + 1, cell as int);
        lemma_mul_le(row as int + 1, h as int + 1, cell as int);
        lemma_mul_le(h as int, h as int + 1, cell as int);
        lemma_mul_le(w as int, w as int + 1, cell as int);
        lemma_mul_le(row as int, h as int + 1, cell as int);
        lemma_mul_le(0, row as int, cell as int);
        lemma_mul_le(0, col as int, cell as int);
        lemma_count_le_span(w as int, cell as int);
        lemma_count_le_span(h as int, cell as int);
    }
    let x0 = origin(w, cell);
    let z0 = origin(h, cell);
    let x = x0 + (col as i64) * (cell as i64);
    let az = z0 + (row as i64) * (cell as i64) - pad as i64;
    let bz = z0 + ((row + 1) as i64) * (cell as i64) + pad as i64;
    let zmax = z0 + (h as i64) * (cell as i64);
    let a = if az < z0 { z0 } else { az };
    let b = if bz > zmax { zmax } else { bz };
    segs.push(WallSegment { x0: x, z0: a, x1: x, z1: b });
}

/// The wall segments of a `w` by `h` maze of cells `cell` thousandths on a
/// side, centred on the origin, given for each cell (row-major) whether it has
/// a passage east and south: the north and west borders, then an east wall and
/// a south wall for each cell where it has no such passage. Each wall is
/// lengthened by `pad` at both ends, but kept within the maze.
pub fn segments_from_maze(passages: &Vec<(bool, bool)>, w: usize, h: usize, cell: u32, pad: u32) -> (r: Vec<WallSegment>)
    requires
        passages@.len() == w * h,
        maze_fits(w as int, h as int, cell as int, pad as int),
    ensures
        r@ == maze_segments(passages@, w as int, h as int, cell as int, pad as int),
{
    let ghost (wi, hi, ci, pi) = (w as int, h as int, cell as int, pad as int);
    let mut segs: Vec<WallSegment> = Vec::new();
    let mut c: usize = 0;
    while c < w
        invariant
            c <= w,
            maze_fits(wi, hi, ci, pi),
            wi == w,
            hi == h,
            ci == cell,
            pi == pad,
            segs@ =~= Seq::new(c as nat, |k: int| horizontal_wall(wi, hi, ci, pi, 0, k)),
        decreases w - c,
    {
        push_horizontal(&mut segs, w, h, cell, pad, 0, c);
        c = c + 1;
    }
    let ghost top = segs@;
    let mut r: usize = 0;
    while r < h
        invariant
            r <= h,
            maze_fits(wi, hi, ci, pi),
            wi == w,
            hi == h,
            ci == cell,
            pi == pad,
            segs@ =~= top + Seq::new(r as nat, |k: int| vertical_wall(wi, hi, ci, pi, 0, k)),
        decreases h - r,
    {
        push_vertical(&mut segs, w, h, cell, pad, 0, r);
        r = r + 1;
    }
    let ghost borders = segs@;
    let n = passages.len();
    let mut y: usize = 0;
    while y < h
        invariant
            y <= h,
            n == w * h,
            maze_fits(wi, hi, ci, pi),
            passages@.len() == w * h,
            wi == w,
            hi == h,
            ci == cell,
            pi == pad,
            segs@ =~= borders + interior_walls(passages@, wi, hi, ci, pi, (y * w) as nat),
        decreases h - y,
    {
        let mut x: usize = 0;
        while x < w
            invariant
                x <= w,
                y < h,
                n == w * h,
                maze_fits(wi, hi, ci, pi),
                passages@.len() == w * h,
                wi == w,
                hi == h,
                ci == cell,
                pi == pad,
                segs@ =~= borders + interior_walls(passages@, wi, hi, ci, pi, (y * w + x) as nat),
            decreases w - x,
        {
            proof {
                crate::grid::lemma_index_in_range(x as int, y as int, wi, hi);
            }
            let i: usize = y * w + x;
            proof {
                vstd::arithmetic::mul::lemma_mul_is_commutative(y as int, wi);
                vstd::arithmetic::div_mod::lemma_fundamental_div_mod_converse(i as int, wi, y as int, x as int);
            }
            let ghost prior = segs@;
            let (east, south) = passages[i];
            if !east {
                push_vertical(&mut segs, w, h, cell, pad, x + 1, y);
            }
            if !south {
                push_horizontal(&mut segs, w, h, cell, pad, y + 1, x);
            }
            proof {
                assert(interior_walls(passages@, wi, hi, ci, pi, (i + 1) as nat) == interior_walls(
                    passages@,
                    wi,
                    hi,
                    ci,
                    pi,
                    i as nat,
                ) + cell_walls(passages@, wi, hi, ci, pi, i as int));
                assert(segs@ =~= prior + cell_walls(passages@, wi, hi, ci, pi, i as int));
            }
            x = x + 1;
        }
        proof {
            assert((y + 1) * w == y * w + w) by (nonlinear_arith);
        }
        y = y + 1;
    }
    proof {
        assert(h * w == w * h) by (nonlinear_arith);
    }
    segs
}

/// The walls include the whole border of the maze: north and south of every
/// column, west and east of every row.
pub open spec fn maze_enclosed(segs: Seq<WallSegment>, w: int, h: int, cell: int, pad: int) -> bool {
    &&& forall|c: int| 0 <= c < w ==> segs.contains(#[trigger] horizontal_wall(w, h, cell, pad, 0, c))
    &&& forall|c: int| 0 <= c < w ==> segs.contains(#[trigger] horizontal_wall(w, h, cell, pad, h, c))
    &&& forall|r: int| 0 <= r < h ==> segs.contains(#[trigger] vertical_wall(w, h, cell, pad, 0, r))
    &&& forall|r: int| 0 <= r < h ==> segs.contains(#[trigger] vertical_wall(w, h, cell, pad, w, r))
}

proof fn lemma_interior_holds_cell_walls(passages: Seq<(bool, bool)>, w: int, h: int, cell: int, pad: int, k: nat, i: int, x: WallSegment)
    requires
        0 <= i < k,
        cell_walls(passages, w, h, cell, pad, i).contains(x),
    ensures
        interior_walls(passages, w, h, cell, pad, k).contains(x),
    decreases k,
{
    let prev = interior_walls(passages, w, h, cell, pad, (k - 1) as nat);
    let last = cell_walls(passages, w, h, cell, pad, k - 1);
    if i < k - 1 {
        lemma_interior_holds_cell_walls(passages, w, h, cell, pad, (k - 1) as nat, i, x);
        let j = choose|j: int| 0 <= j < prev.len() && prev[j] == x;
        assert((prev + last)[j] == x);
    } else {
        let j = choose|j: int| 0 <= j < last.len() && last[j] == x;
        assert((prev + last)[prev.len() + j] == x);
    }
}

/// A maze whose last column has no passage east and whose last row has no
/// passage south is enclosed by its walls.
pub proof fn lemma_maze_enclosed(passages: Seq<(bool, bool)>, w: int, h: int, cell: int, pad: int)
    requires
        w >= 1,
        h >= 1,
        passages.len() == w * h,
        forall|i: int| 0 <= i < passages.len() && i % w == w - 1 ==> !(#[trigger] passages[i]).0,
        forall|i: int| 0 <= i < passages.len() && i / w == h - 1 ==> !(#[trigger] passages[i]).1,
    ensures
        maze_enclosed(maze_segments(passages, w, h, cell, pad), w, h, cell, pad),
{
    let top = Seq::new(w as nat, |c: int| horizontal_wall(w, h, cell, pad, 0, c));
    let left = Seq::new(h as nat, |r: int| vertical_wall(w, h, cell, pad, 0, r));
    let inner = interior_walls(passages, w, h, cell, pad, (w * h) as nat);
    let all = maze_segments(passages, w, h, cell, pad);
    assert(all == top + left + inner);
    assert forall|c: int| 0 <= c < w implies all.contains(#[trigger] horizontal_wall(w, h, cell, pad, 0, c)) by {
        assert(all[c] == top[c]);
    }
    assert forall|r: int| 0 <= r < h implies all.contains(#[trigger] vertical_wall(w, h, cell, pad, 0, r)) by {
        assert(all[w + r] == left[r]);
    }
    assert forall|c: int| 0 <= c < w implies all.contains(#[trigger] horizontal_wall(w, h, cell, pad, h, c)) by {
        let i = (h - 1) * w + c;
        crate::grid::lemma_index_in_range(c, h - 1, w, h);
        vstd::arithmetic::div_mod::lemma_fundamental_div_mod_converse(i, w, h - 1, c);
        let cw = cell_walls(passages, w, h, cell, pad, i);
        assert(cw[cw.len() - 1] == horizontal_wall(w, h, cell, pad, h, c));
        assert(cw.contains(horizontal_wall(w, h, cell, pad, h, c)));
        lemma_interior_holds_cell_walls(passages, w, h, cell, pad, (w * h) as nat, i, horizontal_wall(w, h, cell, pad, h, c));
        let j = choose|j: int| 0 <= j < inner.len() && inner[j] == horizontal_wall(w, h, cell, pad, h, c);
        assert(all[w + h + j] == inner[j]);
    }
    assert forall|r: int| 0 <= r < h implies all.contains(#[trigger] vertical_wall(w, h, cell, pad, w, r)) by {
        let i = r * w + (w - 1);
        crate::grid::lemma_index_in_range(w - 1, r, w, h);
        vstd::arithmetic::div_mod::lemma_fundamental_div_mod_converse(i, w, r, w - 1);
        let cw = cell_walls(passages, w, h, cell, pad, i);
        assert(cw[0] == vertical_wall(w, h, cell, pad, w, r));
        assert(cw.contains(vertical_wall(w, h, cell, pad, w, r)));
        lemma_interior_holds_cell_walls(passages, w, h, cell, pad, (w * h) as nat, i, vertical_wall(w, h, cell, pad, w, r));
        let j = choose|j: int| 0 <= j < inner.len() && inner[j] == vertical_wall(w, h, cell, pad, w, r);
        assert(all[w + h + j] == inner[j]);
    }
}

/// The wall segments of a maze carved from `seed`, `w` by `h` cells of side
/// `cell` thousandths, walls lengthened by `pad`.
pub open spec fn maze_wall_segments(seed: u32, w: int, h: int, cell: int, pad: int) -> Seq<WallSegment> {
    maze_segments(carved_passages(seed, w, h), w, h, cell, pad)
}

/// Carves a `w` by `h` maze from `seed` and returns its wall segments.
pub fn generate_wall_segments(seed: u32, w: usize, h: usize, cell: u32, pad: u32) -> (r: Vec<WallSegment>)
    requires
        1 <= w,
        1 <= h,
        w * h <= MAX_MAZE_CELLS,
        maze_fits(w as int, h as int, cell as int, pad as int),
    ensures
        r@ == maze_wall_segments(seed, w as int, h as int, cell as int, pad as int),
        maze_enclosed(r@, w as int, h as int, cell as int, pad as int),
{
    let passages = carve_maze(seed, w, h);
    proof {
        lemma_maze_enclosed(passages@, w as int, h as int, cell as int, pad as int);
    }
    segments_from_maze(&passages, w, h, cell, pad)
}

/// Two maze generations from the same seed and dimensions give the same wall
/// segments.
pub proof fn lemma_generation_deterministic(
    seed: u32,
    w: int,
    h: int,
    cell: int,
    pad: int,
    first: Seq<WallSegment>,
    second: Seq<WallSegment>,
)
    requires
        first == maze_wall_segments(seed, w, h, cell, pad),
        second == maze_wall_segments(seed, w, h, cell, pad),
    ensures
        first == second,
{
}

} // verus!
