//! Keeping the ground-truth grid in line with the world: walls, flags and
//! capture points stamped onto the cells their boxes overlap.
use vstd::prelude::*;
use crate::grid::{EntityType, OccupancyGrid, OccupancyGridEntry};
use crate::maze::{MAX_MAZE_CELLS, WallSegment, generate_wall_segments, maze_fits};

verus! {

/// Half the side of the box that a flag or capture point occupies, in
/// thousandths of a world unit.
pub const ITEM_HALF_EXTENT: i64 = 500;

/// The cells `min_col..=max_col` by `min_row..=max_row`.
#[derive(Clone, Copy, Debug, PartialEq, Eq, Structural)]
pub struct CellRect {
    pub min_col: usize,
    pub max_col: usize,
    pub min_row: usize,
    pub max_row: usize,
}

pub open spec fn clamp_int(v: int, lo: int, hi: int) -> int {
    if v < lo {
        lo
    } else if v > hi {
        hi
    } else {
        v
    }
}

/// First cell, along an axis of `g` cells of side `cs`, that a box whose low
/// edge lies `a` past the axis' start overlaps, kept on the grid.
pub open spec fn axis_lo(a: int, cs: int, g: int) -> int {
    clamp_int(a / cs, 0, g - 1)
}

/// Last cell, along an axis of `g` cells of side `cs`, that a box whose high
/// edge lies `b` past the axis' start overlaps, kept on the grid.
pub open spec fn axis_hi(b: int, cs: int, g: int) -> int {
    clamp_int((b + cs - 1) / cs - 1, 0, g - 1)
}

/// The cells that the box from `(min_x, min_z)` to `(max_x, max_z)` overlaps
/// on a `w` by `h` grid of cells `cs` on a side covering a world `world_w` by
/// `world_h` centred on the origin; none where the clamped span is empty.
pub open spec fn box_cells(
    min_x: int,
    min_z: int,
    max_x: int,
    max_z: int,
    w: int,
    h: int,
    cs: int,
    world_w: int,
    world_h: int,
) -> Option<CellRect> {
    let lc = axis_lo(min_x + world_w / 2, cs, w);
    let hc = axis_hi(max_x + world_w / 2, cs, w);
    let lr = axis_lo(min_z + world_h / 2, cs, h);
    let hr = axis_hi(max_z + world_h / 2, cs, h);
    if hc < lc || hr < lr {
        None
    } else {
        Some(CellRect { min_col: lc as usize, max_col: hc as usize, min_row: lr as usize, max_row: hr as usize })
    }
}

/// `r` is a non-empty rectangle of cells on a `w` by `h` grid.
pub open spec fn rect_on(r: CellRect, w: int, h: int) -> bool {
    r.min_col <= r.max_col < w && r.min_row <= r.max_row < h
}

fn axis_span_lo(a: i128, cs: u32, g: usize) -> (r: usize)
    requires
        cs > 0,
        g >= 1,
    ensures
        r == axis_lo(a as int, cs as int, g as int),
{
    if a <= 0 {
        proof {
            vstd::arithmetic::div_mod::lemma_div_is_ordered(a as int, 0, cs as int);
        }
        0
    } else {
        let q = a / (cs as i128);
        proof {
            vstd::arithmetic::div_mod::lemma_div_pos_is_pos(a as int, cs as int);
        }
        if q > (g - 1) as i128 {
            g - 1
        } else {
            q as usize
        }
    }
}

fn axis_span_hi(b: i128, cs: u32, g: usize) -> (r: usize)
    requires
        cs > 0,
        g >= 1,
        b <= i128::MAX - u32::MAX,
    ensures
        r == axis_hi(b as int, cs as int, g as int),
{
    if b <= 0 {
        proof {
            vstd::arithmetic::div_mod::lemma_div_is_ordered(b + cs - 1, cs - 1, cs as int);
            vstd::arithmetic::div_mod::lemma_basic_div(cs - 1, cs as int);
        }
        0
    } else {
        let q = (b + cs as i128 - 1) / (cs as i128);
        proof {
            vstd::arithmetic::div_mod::lemma_div_pos_is_pos(b + cs - 1, cs as int);
            vstd::arithmetic::div_mod::lemma_div_is_ordered(cs as int, b + cs - 1, cs as int);
            vstd::arithmetic::div_mod::lemma_div_basics(cs as int);
        }
        if q - 1 > (g - 1) as i128 {
            g - 1
        } else {
            (q - 1) as usize
        }
    }
}

/// The cells that the box from `(min_x, min_z)` to `(max_x, max_z)`, in
/// thousandths, overlaps on a grid of cells `cs` on a side covering a world
/// `world_w` by `world_h` centred on the origin. A box partly off the grid is
/// cut to it; one wholly off it still reaches the edge cells.
pub fn overlapping_indexes(
    min_x: i128,
    min_z: i128,
    max_x: i128,
    max_z: i128,
    w: usize,
    h: usize,
    cs: u32,
    world_w: u32,
    world_h: u32,
) -> (r: Option<CellRect>)
    requires
        cs > 0,
        w >= 1,
        h >= 1,
        i128::MIN + u32::MAX <= min_x <= i128::MAX - u32::MAX,
        i128::MIN + u32::MAX <= min_z <= i128::MAX - u32::MAX,
        i128::MIN + u32::MAX <= max_x <= i128::MAX - 2 * u32::MAX,
        i128::MIN + u32::MAX <= max_z <= i128::MAX - 2 * u32::MAX,
    ensures
        r == box_cells(min_x as int, min_z as int, max_x as int, max_z as int, w as int, h as int, cs as int, world_w as int, world_h as int),
        r is Some ==> rect_on(r->Some_0, w as int, h as int),
{
    let lc = axis_span_lo(min_x + (world_w / 2) as i128, cs, w);
    let hc = axis_span_hi(max_x + (world_w / 2) as i128, cs, w);
    let lr = axis_span_lo(min_z + (world_h / 2) as i128, cs, h);
    let hr = axis_span_hi(max_z + (world_h / 2) as i128, cs, h);
    if hc < lc || hr < lr {
        None
    } else {
        Some(CellRect { min_col: lc, max_col: hc, min_row: lr, max_row: hr })
    }
}


/// Cell `i` of a grid `w` cells wide lies in `r`.
pub open spec fn in_rect(r: CellRect, i: int, w: int) -> bool {
    &&& r.min_col <= i % w <= r.max_col
    &&& r.min_row <= i / w <= r.max_row
}

/// `cells` with every cell in `r` replaced by one certainly of class `t`.
pub open spec fn apply_box(cells: Seq<OccupancyGridEntry>, r: Option<CellRect>, t: EntityType, w: int) -> Seq<OccupancyGridEntry> {
    Seq::new(
        cells.len(),
        |i: int|
            if r is Some && in_rect(r->Some_0, i, w) {
                OccupancyGridEntry::saturated(t)
            } else {
                cells[i]
            },
    )
}

/// `cells` with each box of `rs` applied in turn.
pub open spec fn apply_boxes(cells: Seq<OccupancyGridEntry>, rs: Seq<Option<CellRect>>, t: EntityType, w: int) -> Seq<OccupancyGridEntry>
    decreases rs.len(),
{
    if rs.len() == 0 {
        cells
    } else {
        apply_box(apply_boxes(cells, rs.drop_last(), t, w), rs.last(), t, w)
    }
}

/// The box of `g`'s cells that wall `s`, `half` thick on each side, overlaps.
pub open spec fn segment_box(s: WallSegment, half: int, w: int, h: int, cs: int, world_w: int, world_h: int) -> Option<CellRect> {
    box_cells(
        (if s.x0 <= s.x1 { s.x0 } else { s.x1 }) - half,
        (if s.z0 <= s.z1 { s.z0 } else { s.z1 }) - half,
        (if s.x0 <= s.x1 { s.x1 } else { s.x0 }) + half,
        (if s.z0 <= s.z1 { s.z1 } else { s.z0 }) + half,
        w,
        h,
        cs,
        world_w,
        world_h,
    )
}

/// The box of cells that a flag or capture point centred at `p` overlaps.
pub open spec fn item_box(p: (i64, i64), w: int, h: int, cs: int, world_w: int, world_h: int) -> Option<CellRect> {
    box_cells(
        p.0 - ITEM_HALF_EXTENT,
        p.1 - ITEM_HALF_EXTENT,
        p.0 + ITEM_HALF_EXTENT,
        p.1 + ITEM_HALF_EXTENT,
        w,
        h,
        cs,
        world_w,
        world_h,
    )
}

/// Replaces every cell in `rect` by one certainly of class `t`.
pub fn stamp_rect(grid: &mut OccupancyGrid, rect: Option<CellRect>, t: EntityType)
    requires
        old(grid).wf(),
        rect is Some ==> rect_on(rect->Some_0, old(grid).spec_width() as int, old(grid).spec_height() as int),
    ensures
        final(grid).wf(),
        final(grid).spec_width() == old(grid).spec_width(),
        final(grid).spec_height() == old(grid).spec_height(),
        final(grid).spec_cell_size() == old(grid).spec_cell_size(),
        final(grid).cells() == apply_box(old(grid).cells(), rect, t, old(grid).spec_width() as int),
{
    let ghost before = grid.cells();
    let w = grid.width();
    let h = grid.height();
    let ghost wi = w as int;
    let ghost n = before.len() as int;
    match rect {
        None => {
            proof {
                assert(grid.cells() =~= apply_box(before, rect, t, wi));
            }
        },
        Some(b) => {
            let mut rr: usize = b.min_row;
            proof {
                assert forall|i: int| 0 <= i < n implies #[trigger] grid.cells()[i] == if in_rect(b, i, wi) && i / wi < rr {
                    OccupancyGridEntry::saturated(t)
                } else {
                    before[i]
                } by {}
            }
            while rr <= b.max_row
                invariant
                    grid.wf(),
                    b.min_row <= rr <= b.max_row + 1,
                    b.min_col <= b.max_col,
                    b.max_row < h,
                    b.max_col < w,
                    w == grid.spec_width(),
                    h == grid.spec_height(),
                    wi == w,
                    grid.spec_cell_size() == old(grid).spec_cell_size(),
                    n == w * h,
                    before == old(grid).cells(),
                    grid.cells().len() == n,
                    forall|i: int|
                        0 <= i < n ==> #[trigger] grid.cells()[i] == if in_rect(b, i, wi) && i / wi < rr {
                            OccupancyGridEntry::saturated(t)
                        } else {
                            before[i]
                        },
                decreases b.max_row + 1 - rr,
            {
                let mut cc: usize = b.min_col;
                proof {
                    assert forall|i: int| 0 <= i < n implies #[trigger] grid.cells()[i] == if in_rect(b, i, wi) && (i / wi < rr || (i / wi
                        == rr && i % wi < cc)) {
                        OccupancyGridEntry::saturated(t)
                    } else {
                        before[i]
                    } by {}
                }
                while cc <= b.max_col
                    invariant
                        grid.wf(),
                        b.min_row <= rr <= b.max_row,
                        b.min_col <= cc <= b.max_col + 1,
                        b.max_row < h,
                        b.max_col < w,
                        w == grid.spec_width(),
                        h == grid.spec_height(),
                        wi == w,
                        grid.spec_cell_size() == old(grid).spec_cell_size(),
                        n == w * h,
                        before == old(grid).cells(),
                        grid.cells().len() == n,
                        forall|i: int|
                            0 <= i < n ==> #[trigger] grid.cells()[i] == if in_rect(b, i, wi) && (i / wi < rr || (i / wi
                                == rr && i % wi < cc)) {
                                OccupancyGridEntry::saturated(t)
                            } else {
                                before[i]
                            },
                    decreases b.max_col + 1 - cc,
                {
                    proof {
                        crate::grid::lemma_index_in_range(cc as int, rr as int, wi, h as int);
                    }
                    let j: usize = cc + rr * w;
                    proof {
                        vstd::arithmetic::mul::lemma_mul_is_commutative(rr as int, wi);
                        vstd::arithmetic::div_mod::lemma_fundamental_div_mod_converse(j as int, wi, rr as int, cc as int);
                    }
                    grid.stamp_at(j, t);
                    proof {
                        assert forall|i: int| 0 <= i < n implies #[trigger] grid.cells()[i] == if in_rect(b, i, wi) && (i / wi < rr || (
                            i / wi == rr && i % wi < cc + 1)) {
                            OccupancyGridEntry::saturated(t)
                        } else {
                            before[i]
                        } by {
                            if i != j && i / wi == rr && i % wi == cc {
                                vstd::arithmetic::div_mod::lemma_fundamental_div_mod(i, wi);
                                vstd::arithmetic::mul::lemma_mul_is_commutative(rr as int, wi);
                            }
                        }
                    }
                    cc = cc + 1;
                }
                rr = rr + 1;
            }
            proof {
                assert forall|i: int| 0 <= i < n implies #[trigger] grid.cells()[i] == apply_box(before, rect, t, wi)[i] by {
                    if in_rect(b, i, wi) {
                        assert(i / wi <= b.max_row);
                    }
                }
                assert(grid.cells() =~= apply_box(before, rect, t, wi));
            }
        },
    }
}

/// `cells` with every cell that is not a wall made certainly empty.
pub open spec fn cleared_but_walls(cells: Seq<OccupancyGridEntry>) -> Seq<OccupancyGridEntry> {
    Seq::new(
        cells.len(),
        |i: int|
            if cells[i].assignment == Some(EntityType::Wall) {
                cells[i]
            } else {
                OccupancyGridEntry::saturated(EntityType::Empty)
            },
    )
}

/// `cells` with every cell made certainly empty.
pub open spec fn cleared(cells: Seq<OccupancyGridEntry>) -> Seq<OccupancyGridEntry> {
    Seq::new(cells.len(), |i: int| OccupancyGridEntry::saturated(EntityType::Empty))
}

/// Makes every cell certainly empty, walls too when `keep_walls` is false.
pub fn clear_cells(grid: &mut OccupancyGrid, keep_walls: bool)
    requires
        old(grid).wf(),
    ensures
        final(grid).wf(),
        final(grid).spec_width() == old(grid).spec_width(),
        final(grid).spec_height() == old(grid).spec_height(),
        final(grid).spec_cell_size() == old(grid).spec_cell_size(),
        keep_walls ==> final(grid).cells() == cleared_but_walls(old(grid).cells()),
        !keep_walls ==> final(grid).cells() == cleared(old(grid).cells()),
{
    let ghost before = grid.cells();
    let n = grid.len();
    let mut i: usize = 0;
    while i < n
        invariant
            grid.wf(),
            i <= n,
            n == before.len(),
            grid.cells().len() == n,
            before == old(grid).cells(),
            grid.spec_width() == old(grid).spec_width(),
            grid.spec_height() == old(grid).spec_height(),
            grid.spec_cell_size() == old(grid).spec_cell_size(),
            forall|k: int|
                0 <= k < n ==> #[trigger] grid.cells()[k] == if k < i && !(keep_walls && before[k].assignment == Some(
                    EntityType::Wall,
                )) {
                    OccupancyGridEntry::saturated(EntityType::Empty)
                } else {
                    before[k]
                },
        decreases n - i,
    {
        let e = grid.entry_at(i);
        if !(keep_walls && e.assignment == Some(EntityType::Wall)) {
            grid.stamp_at(i, EntityType::Empty);
        }
        i = i + 1;
    }
    proof {
        if keep_walls {
            assert(grid.cells() =~= cleared_but_walls(before));
        } else {
            assert(grid.cells() =~= cleared(before));
        }
    }
}


/// The boxes of cells that walls `segs`, `half` thick on each side, overlap.
pub open spec fn segment_boxes(segs: Seq<WallSegment>, half: int, w: int, h: int, cs: int, world_w: int, world_h: int) -> Seq<Option<CellRect>> {
    segs.map_values(|s: WallSegment| segment_box(s, half, w, h, cs, world_w, world_h))
}

/// The boxes of cells that items centred at `ps` overlap.
pub open spec fn item_boxes(ps: Seq<(i64, i64)>, w: int, h: int, cs: int, world_w: int, world_h: int) -> Seq<Option<CellRect>> {
    ps.map_values(|p: (i64, i64)| item_box(p, w, h, cs, world_w, world_h))
}

/// The grid can be rasterised onto: it has cells, of positive size.
pub open spec fn rasterisable(g: OccupancyGrid) -> bool {
    &&& g.wf()
    &&& g.spec_width() >= 1
    &&& g.spec_height() >= 1
    &&& g.spec_cell_size() > 0
}

/// Stamps as walls the cells that each of `segs`, `half` thick on each side,
/// overlaps, on a grid covering a world `world_w` by `world_h`.
pub fn stamp_segments(grid: &mut OccupancyGrid, segs: &Vec<WallSegment>, half: u32, world_w: u32, world_h: u32)
    requires
        rasterisable(*old(grid)),
    ensures
        rasterisable(*final(grid)),
        final(grid).spec_width() == old(grid).spec_width(),
        final(grid).spec_height() == old(grid).spec_height(),
        final(grid).spec_cell_size() == old(grid).spec_cell_size(),
        final(grid).cells() == apply_boxes(
            old(grid).cells(),
            segment_boxes(
                segs@,
                half as int,
                old(grid).spec_width() as int,
                old(grid).spec_height() as int,
                old(grid).spec_cell_size() as int,
                world_w as int,
                world_h as int,
            ),
            EntityType::Wall,
            old(grid).spec_width() as int,
        ),
{
    let ghost before = grid.cells();
    let w = grid.width();
    let h = grid.height();
    let cs = grid.cell_size();
    let ghost boxes = segment_boxes(segs@, half as int, w as int, h as int, cs as int, world_w as int, world_h as int);
    let mut k: usize = 0;
    while k < segs.len()
        invariant
            rasterisable(*grid),
            k <= segs@.len(),
            w == grid.spec_width(),
            h == grid.spec_height(),
            cs == grid.spec_cell_size(),
            grid.spec_width() == old(grid).spec_width(),
            grid.spec_height() == old(grid).spec_height(),
            grid.spec_cell_size() == old(grid).spec_cell_size(),
            before == old(grid).cells(),
            boxes == segment_boxes(segs@, half as int, w as int, h as int, cs as int, world_w as int, world_h as int),
            grid.cells() == apply_boxes(before, boxes.subrange(0, k as int), EntityType::Wall, w as int),
        decreases segs@.len() - k,
    {
        let s = segs[k];
        let lo_x: i64 = if s.x0 <= s.x1 { s.x0 } else { s.x1 };
        let hi_x: i64 = if s.x0 <= s.x1 { s.x1 } else { s.x0 };
        let lo_z: i64 = if s.z0 <= s.z1 { s.z0 } else { s.z1 };
        let hi_z: i64 = if s.z0 <= s.z1 { s.z1 } else { s.z0 };
        let rect = overlapping_indexes(
            lo_x as i128 - half as i128,
            lo_z as i128 - half as i128,
            hi_x as i128 + half as i128,
            hi_z as i128 + half as i128,
            w,
            h,
            cs,
            world_w,
            world_h,
        );
        stamp_rect(grid, rect, EntityType::Wall);
        proof {
            assert(boxes.subrange(0, k + 1).drop_last() == boxes.subrange(0, k as int));
            assert(boxes.subrange(0, k + 1).last() == rect);
        }
        k = k + 1;
    }
    proof {
        assert(boxes.subrange(0, segs@.len() as int) == boxes);
    }
}

/// Stamps as class `t` the cells that an item centred at each of `ps`
/// overlaps, on a grid covering a world `world_w` by `world_h`.
pub fn stamp_items(grid: &mut OccupancyGrid, ps: &Vec<(i64, i64)>, t: EntityType, world_w: u32, world_h: u32)
    requires
        rasterisable(*old(grid)),
    ensures
        rasterisable(*final(grid)),
        final(grid).spec_width() == old(grid).spec_width(),
        final(grid).spec_height() == old(grid).spec_height(),
        final(grid).spec_cell_size() == old(grid).spec_cell_size(),
        final(grid).cells() == apply_boxes(
            old(grid).cells(),
            item_boxes(
                ps@,
                old(grid).spec_width() as int,
                old(grid).spec_height() as int,
                old(grid).spec_cell_size() as int,
                world_w as int,
                world_h as int,
            ),
            t,
            old(grid).spec_width() as int,
        ),
{
    let ghost before = grid.cells();
    let w = grid.width();
    let h = grid.height();
    let cs = grid.cell_size();
    let ghost boxes = item_boxes(ps@, w as int, h as int, cs as int, world_w as int, world_h as int);
    let mut k: usize = 0;
    while k < ps.len()
        invariant
            rasterisable(*grid),
            k <= ps@.len(),
            w == grid.spec_width(),
            h == grid.spec_height(),
            cs == grid.spec_cell_size(),
            grid.spec_width() == old(grid).spec_width(),
            grid.spec_height() == old(grid).spec_height(),
            grid.spec_cell_size() == old(grid).spec_cell_size(),
            before == old(grid).cells(),
            boxes == item_boxes(ps@, w as int, h as int, cs as int, world_w as int, world_h as int),
            grid.cells() == apply_boxes(before, boxes.subrange(0, k as int), t, w as int),
        decreases ps@.len() - k,
    {
        let (x, z) = ps[k];
        let rect = overlapping_indexes(
            x as i128 - ITEM_HALF_EXTENT as i128,
            z as i128 - ITEM_HALF_EXTENT as i128,
            x as i128 + ITEM_HALF_EXTENT as i128,
            z as i128 + ITEM_HALF_EXTENT as i128,
            w,
            h,
            cs,
            world_w,
            world_h,
        );
        stamp_rect(grid, rect, t);
        proof {
            assert(boxes.subrange(0, k + 1).drop_last() == boxes.subrange(0, k as int));
            assert(boxes.subrange(0, k + 1).last() == rect);
        }
        k = k + 1;
    }
    proof {
        assert(boxes.subrange(0, ps@.len() as int) == boxes);
    }
}

/// The ground-truth grid after one tick: every cell that is not a wall made
/// empty, then the walls, the flags and the capture points stamped in that
/// order.
pub open spec fn refreshed_truth(
    cells: Seq<OccupancyGridEntry>,
    segs: Seq<WallSegment>,
    flags: Seq<(i64, i64)>,
    capture_points: Seq<(i64, i64)>,
    half: int,
    w: int,
    h: int,
    cs: int,
    world_w: int,
    world_h: int,
) -> Seq<OccupancyGridEntry> {
    let walls = apply_boxes(
        cleared_but_walls(cells),
        segment_boxes(segs, half, w, h, cs, world_w, world_h),
        EntityType::Wall,
        w,
    );
    let with_flags = apply_boxes(walls, item_boxes(flags, w, h, cs, world_w, world_h), EntityType::Flag, w);
    apply_boxes(with_flags, item_boxes(capture_points, w, h, cs, world_w, world_h), EntityType::CapturePoint, w)
}

/// Brings the ground-truth grid in line with the walls `segs` (each
/// `half_thickness` thick on either side) and the flags and capture points
/// centred at the given positions, on a world `world_w` by `world_h`.
pub fn update_true_grid(
    grid: &mut OccupancyGrid,
    segs: &Vec<WallSegment>,
    flags: &Vec<(i64, i64)>,
    capture_points: &Vec<(i64, i64)>,
    half_thickness: u32,
    world_w: u32,
    world_h: u32,
)
    requires
        rasterisable(*old(grid)),
    ensures
        rasterisable(*final(grid)),
        final(grid).spec_width() == old(grid).spec_width(),
        final(grid).spec_height() == old(grid).spec_height(),
        final(grid).spec_cell_size() == old(grid).spec_cell_size(),
        final(grid).cells() == refreshed_truth(
            old(grid).cells(),
            segs@,
            flags@,
            capture_points@,
            half_thickness as int,
            old(grid).spec_width() as int,
            old(grid).spec_height() as int,
            old(grid).spec_cell_size() as int,
            world_w as int,
            world_h as int,
        ),
{
    clear_cells(grid, true);
    stamp_segments(grid, segs, half_thickness, world_w, world_h);
    stamp_items(grid, flags, EntityType::Flag, world_w, world_h);
    stamp_items(grid, capture_points, EntityType::CapturePoint, world_w, world_h);
}

/// Number of maze cells along an axis `world` long for maze cells `cell`
/// long, rounded to the nearest.
pub open spec fn maze_cells_along(world: int, cell: int) -> int {
    (world + cell / 2) / cell
}

/// Carves the maze for `seed` over a world `world_w` by `world_h`, with maze
/// cells `maze_cell` on a side and walls `thickness` thick, makes every cell
/// of the grid empty and stamps the walls onto it. Returns the walls.
pub fn spawn_walls(
    grid: &mut OccupancyGrid,
    seed: u32,
    world_w: u32,
    world_h: u32,
    maze_cell: u32,
    thickness: u32,
) -> (r: Vec<WallSegment>)
    requires
        rasterisable(*old(grid)),
        maze_cell > 0,
        maze_cells_along(world_w as int, maze_cell as int) >= 1,
        maze_cells_along(world_h as int, maze_cell as int) >= 1,
        maze_cells_along(world_w as int, maze_cell as int) * maze_cells_along(world_h as int, maze_cell as int)
            <= MAX_MAZE_CELLS,
    ensures
        rasterisable(*final(grid)),
        final(grid).spec_width() == old(grid).spec_width(),
        final(grid).spec_height() == old(grid).spec_height(),
        final(grid).spec_cell_size() == old(grid).spec_cell_size(),
        r@ == crate::maze::maze_wall_segments(
            seed,
            maze_cells_along(world_w as int, maze_cell as int),
            maze_cells_along(world_h as int, maze_cell as int),
            maze_cell as int,
            (thickness / 2) as int,
        ),
        final(grid).cells() == apply_boxes(
            cleared(old(grid).cells()),
            segment_boxes(
                r@,
                (thickness / 2) as int,
                old(grid).spec_width() as int,
                old(grid).spec_height() as int,
                old(grid).spec_cell_size() as int,
                world_w as int,
                world_h as int,
            ),
            EntityType::Wall,
            old(grid).spec_width() as int,
        ),
{
    let mw: u64 = (world_w as u64 + (maze_cell / 2) as u64) / maze_cell as u64;
    let mh: u64 = (world_h as u64 + (maze_cell / 2) as u64) / maze_cell as u64;
    let w = mw as usize;
    let h = mh as usize;
    proof {
        assert(1 <= mw <= MAX_MAZE_CELLS) by (nonlinear_arith)
            requires
                mw >= 1,
                mh >= 1,
                mw * mh <= MAX_MAZE_CELLS,
        ;
        assert(1 <= mh <= MAX_MAZE_CELLS) by (nonlinear_arith)
            requires
                mw >= 1,
                mh >= 1,
                mw * mh <= MAX_MAZE_CELLS,
        ;
        assert((w + 1) * maze_cell <= (MAX_MAZE_CELLS + 1) * u32::MAX) by (nonlinear_arith)
            requires
                w <= MAX_MAZE_CELLS,
                maze_cell <= u32::MAX,
        ;
        assert((h + 1) * maze_cell <= (MAX_MAZE_CELLS + 1) * u32::MAX) by (nonlinear_arith)
            requires
                h <= MAX_MAZE_CELLS,
                maze_cell <= u32::MAX,
        ;
        assert(maze_fits(w as int, h as int, maze_cell as int, (thickness / 2) as int));
    }
    let segs = generate_wall_segments(seed, w, h, maze_cell, thickness / 2);
    clear_cells(grid, false);
    stamp_segments(grid, &segs, thickness / 2, world_w, world_h);
    segs
}


/// A true cell that counts towards the mapping error: classified, and neither
/// a flag nor a capture point.
pub open spec fn scored(t: OccupancyGridEntry) -> bool {
    t.assignment is Some && t.assignment != Some(EntityType::Flag) && t.assignment != Some(EntityType::CapturePoint)
}

/// Among the first `k` cells, the number that count towards the mapping error
/// and the number of those that the estimate classifies otherwise.
pub open spec fn mapping_counts(estimate: Seq<OccupancyGridEntry>, truth: Seq<OccupancyGridEntry>, k: nat) -> (nat, nat)
    decreases k,
{
    if k == 0 {
        (0, 0)
    } else {
        let (e, t) = mapping_counts(estimate, truth, (k - 1) as nat);
        let i = k - 1;
        if scored(truth[i]) {
            (if estimate[i].assignment != truth[i].assignment { e + 1 } else { e }, t + 1)
        } else {
            (e, t)
        }
    }
}

proof fn lemma_mapping_counts_bounded(estimate: Seq<OccupancyGridEntry>, truth: Seq<OccupancyGridEntry>, k: nat)
    ensures
        mapping_counts(estimate, truth, k).0 <= mapping_counts(estimate, truth, k).1 <= k,
    decreases k,
{
    if k > 0 {
        lemma_mapping_counts_bounded(estimate, truth, (k - 1) as nat);
    }
}

/// Compares an estimated grid with the ground truth over the cells they share:
/// `(errors, total)`, where `total` counts the true cells that are classified
/// and are neither flags nor capture points, and `errors` those among them
/// that the estimate classifies otherwise.
pub fn mapping_error(estimate: &OccupancyGrid, truth: &OccupancyGrid) -> (r: (usize, usize))
    ensures
        ({
            let n = if estimate.cells().len() <= truth.cells().len() { estimate.cells().len() } else { truth.cells().len() };
            r.0 == mapping_counts(estimate.cells(), truth.cells(), n).0 && r.1 == mapping_counts(
                estimate.cells(),
                truth.cells(),
                n,
            ).1
        }),
{
    let n = if estimate.len() <= truth.len() { estimate.len() } else { truth.len() };
    let mut errors: usize = 0;
    let mut total: usize = 0;
    let mut i: usize = 0;
    while i < n
        invariant
            i <= n,
            n <= estimate.cells().len(),
            n <= truth.cells().len(),
            errors == mapping_counts(estimate.cells(), truth.cells(), i as nat).0,
            total == mapping_counts(estimate.cells(), truth.cells(), i as nat).1,
        decreases n - i,
    {
        proof {
            lemma_mapping_counts_bounded(estimate.cells(), truth.cells(), i as nat);
        }
        let t = truth.entry_at(i);
        let e = estimate.entry_at(i);
        let counted = match t.assignment {
            Some(EntityType::Flag) => false,
            Some(EntityType::CapturePoint) => false,
            Some(_) => true,
            None => false,
        };
        if counted {
            total = total + 1;
            if e.assignment != t.assignment {
                errors = errors + 1;
            }
        }
        i = i + 1;
    }
    (errors, total)
}


/// The cell, as `(col, row)`, that the world point `(x, z)` (thousandths)
/// falls in on a `w` by `h` grid of cells `cs` on a side covering a world
/// `world_w` by `world_h` centred on the origin; none off the grid.
pub open spec fn cell_at(x: int, z: int, w: int, h: int, cs: int, world_w: int, world_h: int) -> Option<(int, int)> {
    let col = (x + world_w / 2) / cs;
    let row = (z + world_h / 2) / cs;
    if 0 <= col < w && 0 <= row < h {
        Some((col, row))
    } else {
        None
    }
}

/// The cell that the world point `(x, z)` falls in, if it is on the grid.
pub fn world_to_cell(x: i64, z: i64, w: usize, h: usize, cs: u32, world_w: u32, world_h: u32) -> (r: Option<(usize, usize)>)
    requires
        cs > 0,
    ensures
        r is None <==> cell_at(x as int, z as int, w as int, h as int, cs as int, world_w as int, world_h as int) is None,
        r is Some ==> {
            let c = cell_at(x as int, z as int, w as int, h as int, cs as int, world_w as int, world_h as int)->Some_0;
            r->Some_0.0 == c.0 && r->Some_0.1 == c.1
        },
{
    let u: i128 = x as i128 + (world_w / 2) as i128;
    let v: i128 = z as i128 + (world_h / 2) as i128;
    if u < 0 || v < 0 {
        proof {
            vstd::arithmetic::div_mod::lemma_fundamental_div_mod(-1, cs as int);
            vstd::arithmetic::div_mod::lemma_mod_bound(-1, cs as int);
            assert(-1int / (cs as int) == -1) by (nonlinear_arith)
                requires
                    -1 == (cs as int) * (-1int / (cs as int)) + (-1int % (cs as int)),
                    0 <= -1int % (cs as int) < cs,
                    cs > 0,
            ;
            if u < 0 {
                vstd::arithmetic::div_mod::lemma_div_is_ordered(u as int, -1, cs as int);
            }
            if v < 0 {
                vstd::arithmetic::div_mod::lemma_div_is_ordered(v as int, -1, cs as int);
            }
        }
        return None;
    }
    let col = u / (cs as i128);
    let row = v / (cs as i128);
    proof {
        vstd::arithmetic::div_mod::lemma_div_pos_is_pos(u as int, cs as int);
        vstd::arithmetic::div_mod::lemma_div_pos_is_pos(v as int, cs as int);
    }
    if col >= w as i128 || row >= h as i128 {
        return None;
    }
    Some((col as usize, row as usize))
}

/// Two maze builds from the same seed and sizes, on grids of the same shape,
/// give the same walls and leave the same cells.
pub proof fn lemma_spawn_walls_deterministic(
    seed: u32,
    world_w: u32,
    world_h: u32,
    maze_cell: u32,
    thickness: u32,
    first_before: OccupancyGrid,
    first_after: OccupancyGrid,
    first: Seq<WallSegment>,
    second_before: OccupancyGrid,
    second_after: OccupancyGrid,
    second: Seq<WallSegment>,
)
    requires
        first_before.spec_width() == second_before.spec_width(),
        first_before.spec_height() == second_before.spec_height(),
        first_before.spec_cell_size() == second_before.spec_cell_size(),
        first_before.cells().len() == second_before.cells().len(),
        first == crate::maze::maze_wall_segments(
            seed,
            maze_cells_along(world_w as int, maze_cell as int),
            maze_cells_along(world_h as int, maze_cell as int),
            maze_cell as int,
            (thickness / 2) as int,
        ),
        second == crate::maze::maze_wall_segments(
            seed,
            maze_cells_along(world_w as int, maze_cell as int),
            maze_cells_along(world_h as int, maze_cell as int),
            maze_cell as int,
            (thickness / 2) as int,
        ),
        first_after.cells() == apply_boxes(
            cleared(first_before.cells()),
            segment_boxes(
                first,
                (thickness / 2) as int,
                first_before.spec_width() as int,
                first_before.spec_height() as int,
                first_before.spec_cell_size() as int,
                world_w as int,
                world_h as int,
            ),
            EntityType::Wall,
            first_before.spec_width() as int,
        ),
        second_after.cells() == apply_boxes(
            cleared(second_before.cells()),
            segment_boxes(
                second,
                (thickness / 2) as int,
                second_before.spec_width() as int,
                second_before.spec_height() as int,
                second_before.spec_cell_size() as int,
                world_w as int,
                world_h as int,
            ),
            EntityType::Wall,
            second_before.spec_width() as int,
        ),
    ensures
        first == second,
        first_after.cells() == second_after.cells(),
{
    assert(cleared(first_before.cells()) =~= cleared(second_before.cells()));
}

} // verus!
