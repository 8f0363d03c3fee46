//! Clearance-constrained placement of flags and capture points on the
//! ground-truth grid.
use vstd::prelude::*;
use vstd::arithmetic::div_mod::{lemma_fundamental_div_mod, lemma_fundamental_div_mod_converse};
use crate::grid::{EntityType, OccupancyGrid, OccupancyGridEntry};
use rand::seq::{IndexedRandom, SliceRandom};
use rand::SeedableRng;
use rand_chacha::ChaCha20Rng;

verus! {

/// Column of flat index `i` on a grid `w` cells wide.
pub open spec fn col_of(i: int, w: int) -> int {
    i % w
}

/// Row of flat index `i` on a grid `w` cells wide.
pub open spec fn row_of(i: int, w: int) -> int {
    i / w
}

/// Squared distance between the centres of cells `a` and `b`, in squared
/// thousandths of a world unit, for cells `cs` thousandths on a side.
pub open spec fn dist_sq(a: int, b: int, w: int, cs: int) -> int {
    let dc = (col_of(a, w) - col_of(b, w)) * cs;
    let dr = (row_of(a, w) - row_of(b, w)) * cs;
    dc * dc + dr * dr
}

/// Cell `a` lies within `clearance` of cell `b`.
pub open spec fn within(a: int, b: int, w: int, cs: int, clearance: int) -> bool {
    dist_sq(a, b, w, cs) <= clearance * clearance
}

/// A cell that placed content must keep its distance from.
pub open spec fn is_obstacle(e: OccupancyGridEntry) -> bool {
    e.assignment == Some(EntityType::Wall) || e.assignment == Some(EntityType::Flag)
        || e.assignment == Some(EntityType::CapturePoint)
}

proof fn lemma_row_col(i: int, w: int, row: int, col: int)
    requires
        w > 0,
        0 <= col < w,
        i == row * w + col,
    ensures
        row_of(i, w) == row,
        col_of(i, w) == col,
{
    lemma_fundamental_div_mod_converse(i, w, row, col);
}

proof fn lemma_rad_bounds(cl: int, cs: int, rad: int)
    requires
        cs > 0,
        cl >= 0,
        rad == (cl + cs - 1) / cs,
    ensures
        rad * cs >= cl,
        rad * cs <= cl + cs - 1,
        rad >= 0,
{
    lemma_fundamental_div_mod(cl + cs - 1, cs);
    assert(0 <= (cl + cs - 1) % cs < cs) by {
        vstd::arithmetic::div_mod::lemma_mod_bound(cl + cs - 1, cs);
    }
    assert(rad >= 0) by {
        vstd::arithmetic::div_mod::lemma_div_pos_is_pos(cl + cs - 1, cs);
    }
}

/// A cell within `cl` of another lies at most `rad` rows and `rad` columns
/// away from it, when `rad * cs >= cl`.
proof fn lemma_within_window(dr: int, dc: int, cs: int, cl: int, rad: int)
    requires
        cs > 0,
        cl >= 0,
        rad >= 0,
        rad * cs >= cl,
        (dc * cs) * (dc * cs) + (dr * cs) * (dr * cs) <= cl * cl,
    ensures
        -rad <= dr <= rad,
        -rad <= dc <= rad,
{
    assert(-rad <= dr <= rad) by (nonlinear_arith)
        requires
            cs > 0,
            cl >= 0,
            rad >= 0,
            rad * cs >= cl,
            (dc * cs) * (dc * cs) + (dr * cs) * (dr * cs) <= cl * cl,
    {
        if dr > rad {
            assert(dr * cs >= (rad + 1) * cs);
            assert(dr * cs > cl);
            assert((dr * cs) * (dr * cs) > cl * cl);
        }
        if dr < -rad {
            assert((-dr) * cs >= (rad + 1) * cs);
            assert((-dr) * cs > cl);
            assert(((-dr) * cs) * ((-dr) * cs) > cl * cl);
            assert((dr * cs) * (dr * cs) == ((-dr) * cs) * ((-dr) * cs));
        }
    }
    assert(-rad <= dc <= rad) by (nonlinear_arith)
        requires
            cs > 0,
            cl >= 0,
            rad >= 0,
            rad * cs >= cl,
            (dc * cs) * (dc * cs) + (dr * cs) * (dr * cs) <= cl * cl,
    {
        if dc > rad {
            assert(dc * cs >= (rad + 1) * cs);
            assert(dc * cs > cl);
            assert((dc * cs) * (dc * cs) > cl * cl);
        }
        if dc < -rad {
            assert((-dc) * cs >= (rad + 1) * cs);
            assert((-dc) * cs > cl);
            assert(((-dc) * cs) * ((-dc) * cs) > cl * cl);
            assert((dc * cs) * (dc * cs) == ((-dc) * cs) * ((-dc) * cs));
        }
    }
}

/// Squared length, in `u128`, of `d` cells of side `cs`, where `d <= rad`
/// and `rad * cs` fits in 64 bits.
fn span_sq(d: u64, cs: u32, rad: u64) -> (r: u128)
    requires
        d <= rad,
        rad * cs <= u64::MAX,
    ensures
        r == (d * cs) * (d * cs),
        r <= (rad * cs) * (rad * cs),
{
    proof {
        assert(d * cs <= rad * cs) by (nonlinear_arith)
            requires
                d <= rad,
        ;
        assert((d * cs) * (d * cs) <= (rad * cs) * (rad * cs)) by (nonlinear_arith)
            requires
                0 <= d * cs <= rad * cs,
        ;
        assert((rad * cs) * (rad * cs) <= (u64::MAX as int) * (u64::MAX as int)) by (nonlinear_arith)
            requires
                0 <= rad * cs <= u64::MAX,
        ;
    }
    let x: u128 = (d as u128) * (cs as u128);
    x * x
}

/// Marks as blocked every cell whose centre lies within `min_clear_units` of
/// the centre of cell `idx`, on a `w` by `h` grid of cells `cell_size` on a
/// side; every other mark stays as it was.
pub fn mark_neighborhood_units(
    blocked: &mut Vec<bool>,
    idx: usize,
    w: usize,
    h: usize,
    cell_size: u32,
    min_clear_units: u32,
)
    requires
        cell_size > 0,
        w * h <= usize::MAX,
        old(blocked)@.len() == w * h,
        idx < w * h,
    ensures
        final(blocked)@.len() == old(blocked)@.len(),
        forall|j: int|
            0 <= j < w * h ==> #[trigger] final(blocked)@[j] == (old(blocked)@[j] || within(
                j,
                idx as int,
                w as int,
                cell_size as int,
                min_clear_units as int,
            )),
{
    let ghost wi = w as int;
    let ghost cs = cell_size as int;
    let ghost cl = min_clear_units as int;
    let ghost n = w * h;
    assert(w > 0 && h > 0) by (nonlinear_arith)
        requires
            idx < w * h,
    ;
    let r0: usize = idx / w;
    let c0: usize = idx % w;
    proof {
        lemma_fundamental_div_mod(idx as int, wi);
        vstd::arithmetic::div_mod::lemma_mod_bound(idx as int, wi);
        assert(r0 < h) by (nonlinear_arith)
            requires
                idx == w * r0 + c0,
                idx < w * h,
                c0 >= 0,
                w > 0,
        ;
    }
    let rad: u64 = (min_clear_units as u64 + cell_size as u64 - 1) / (cell_size as u64);
    proof {
        lemma_rad_bounds(cl, cs, rad as int);
    }
    let rad_r: usize = if rad >= h as u64 { h } else { rad as usize };
    let rad_c: usize = if rad >= w as u64 { w } else { rad as usize };
    let lo_r: usize = if r0 >= rad_r { r0 - rad_r } else { 0 };
    let hi_r: usize = if h - 1 - r0 >= rad_r { r0 + rad_r } else { h - 1 };
    let lo_c: usize = if c0 >= rad_c { c0 - rad_c } else { 0 };
    let hi_c: usize = if w - 1 - c0 >= rad_c { c0 + rad_c } else { w - 1 };
    proof {
        assert(cl * cl <= (u32::MAX as int) * (u32::MAX as int)) by (nonlinear_arith)
            requires
                0 <= cl <= u32::MAX,
        ;
    }
    let limit: u128 = (min_clear_units as u128) * (min_clear_units as u128);
    let ghost before = blocked@;
    proof {
        assert forall|j: int| 0 <= j < n && #[trigger] within(j, idx as int, wi, cs, cl) implies
            lo_r <= row_of(j, wi) <= hi_r && lo_c <= col_of(j, wi) <= hi_c by {
            lemma_fundamental_div_mod(j, wi);
            vstd::arithmetic::div_mod::lemma_mod_bound(j, wi);
            vstd::arithmetic::div_mod::lemma_div_pos_is_pos(j, wi);
            let q = j / wi;
            let m = j % wi;
            assert(q < h) by (nonlinear_arith)
                requires
                    j == wi * q + m,
                    j < wi * h,
                    m >= 0,
                    wi > 0,
            {
                if q >= h {
                    assert(wi * q >= wi * h);
                }
            }
            assert(r0 == row_of(idx as int, wi));
            assert(c0 == col_of(idx as int, wi));
            lemma_within_window(row_of(j, wi) - r0, col_of(j, wi) - c0, cs, cl, rad as int);
            assert(lo_r <= row_of(j, wi));
            assert(row_of(j, wi) <= hi_r);
            assert(lo_c <= col_of(j, wi));
            assert(col_of(j, wi) <= hi_c);
        }
    }
    let mut rr: usize = lo_r;
    while rr <= hi_r
        invariant
            lo_r <= rr <= hi_r + 1,
            hi_r < h,
            lo_c <= hi_c < w,
            r0 < h,
            c0 < w,
            idx as int == r0 * wi + c0,
            wi == w,
            w > 0,
            n == w * h,
            n <= usize::MAX,
            cs == cell_size,
            cl == min_clear_units,
            cs > 0,
            rad as int * cs >= cl,
            rad as int * cs <= cl + cs - 1,
            rad_r <= rad,
            rad_c <= rad,
            lo_r as int >= r0 - rad_r,
            hi_r as int <= r0 + rad_r,
            lo_c as int >= c0 - rad_c,
            hi_c as int <= c0 + rad_c,
            limit == cl * cl,
            before.len() == n,
            blocked@.len() == n,
            forall|j: int| 0 <= j < n && #[trigger] within(j, idx as int, wi, cs, cl) ==>
                lo_r <= row_of(j, wi) <= hi_r && lo_c <= col_of(j, wi) <= hi_c,
            forall|j: int|
                0 <= j < n ==> #[trigger] blocked@[j] == (before[j] || (within(j, idx as int, wi, cs, cl)
                    && row_of(j, wi) < rr)),
        decreases hi_r + 1 - rr,
    {
        let mut cc: usize = lo_c;
        while cc <= hi_c
            invariant
                lo_r <= rr <= hi_r,
                hi_r < h,
                lo_c <= cc <= hi_c + 1,
                hi_c < w,
                r0 < h,
                c0 < w,
                idx as int == r0 * wi + c0,
                wi == w,
                w > 0,
                n == w * h,
                n <= usize::MAX,
                cs == cell_size,
                cl == min_clear_units,
                cs > 0,
                rad as int * cs >= cl,
                rad as int * cs <= cl + cs - 1,
                rad_r <= rad,
                rad_c <= rad,
                lo_r as int >= r0 - rad_r,
                hi_r as int <= r0 + rad_r,
                lo_c as int >= c0 - rad_c,
                hi_c as int <= c0 + rad_c,
                limit == cl * cl,
                before.len() == n,
                blocked@.len() == n,
                forall|j: int| 0 <= j < n && #[trigger] within(j, idx as int, wi, cs, cl) ==>
                    lo_r <= row_of(j, wi) <= hi_r && lo_c <= col_of(j, wi) <= hi_c,
                forall|j: int|
                    0 <= j < n ==> #[trigger] blocked@[j] == (before[j] || (within(j, idx as int, wi, cs, cl)
                        && (row_of(j, wi) < rr || (row_of(j, wi) == rr && col_of(j, wi) < cc)))),
            decreases hi_c + 1 - cc,
        {
            let dr: u64 = if rr >= r0 { (rr - r0) as u64 } else { (r0 - rr) as u64 };
            let dc: u64 = if cc >= c0 { (cc - c0) as u64 } else { (c0 - cc) as u64 };
            proof {
                assert(rad as int * cs <= u64::MAX) by (nonlinear_arith)
                    requires
                        rad as int * cs <= cl + cs - 1,
                        cl <= u32::MAX,
                        cs <= u32::MAX,
                ;
            }
            let sr = span_sq(dr, cell_size, rad);
            let sc = span_sq(dc, cell_size, rad);
            proof {
                assert((rad * cs) * (rad * cs) <= 0x1_0000_0000_0000_0000_0000) by (nonlinear_arith)
                    requires
                        0 <= rad * cs <= 2 * 0xffff_ffff,
                ;
            }
            proof {
                crate::grid::lemma_index_in_range(cc as int, rr as int, wi, h as int);
            }
            let j: usize = rr * w + cc;
            proof {
                vstd::arithmetic::mul::lemma_mul_is_distributive_sub_other_way(wi, rr as int, r0 as int);
                crate::grid::lemma_index_in_range(cc as int, rr as int, wi, h as int);
                lemma_row_col(j as int, wi, rr as int, cc as int);
                lemma_row_col(idx as int, wi, r0 as int, c0 as int);
                assert(sr == ((rr - r0) * cs) * ((rr - r0) * cs)) by (nonlinear_arith)
                    requires
                        sr == (dr * cs) * (dr * cs),
                        dr == rr - r0 || dr == r0 - rr,
                ;
                assert(sc == ((cc - c0) * cs) * ((cc - c0) * cs)) by (nonlinear_arith)
                    requires
                        sc == (dc * cs) * (dc * cs),
                        dc == cc - c0 || dc == c0 - cc,
                ;
            }
            proof {
                assert(dist_sq(j as int, idx as int, wi, cs) == sc + sr);
                assert(within(j as int, idx as int, wi, cs, cl) == (sr + sc <= limit));
            }
            if sr + sc <= limit {
                blocked.set(j, true);
            }
            proof {
                assert forall|k: int| 0 <= k < n implies #[trigger] blocked@[k] == (before[k] || (within(
                    k,
                    idx as int,
                    wi,
                    cs,
                    cl,
                ) && (row_of(k, wi) < rr || (row_of(k, wi) == rr && col_of(k, wi) < cc + 1)))) by {
                    if k != j {
                        if row_of(k, wi) == rr && col_of(k, wi) == cc {
                            lemma_fundamental_div_mod(k, wi);
                            vstd::arithmetic::mul::lemma_mul_is_commutative(wi, rr as int);
                            assert(k == j);
                        }
                    }
                }
            }
            cc = cc + 1;
        }
        rr = rr + 1;
    }
}

/// `within` does not depend on the order of the two cells.
pub proof fn lemma_within_symmetric(a: int, b: int, w: int, cs: int, cl: int)
    ensures
        within(a, b, w, cs, cl) == within(b, a, w, cs, cl),
{
    lemma_square_of_negated_span(col_of(a, w), col_of(b, w), cs);
    lemma_square_of_negated_span(row_of(a, w), row_of(b, w), cs);
}

proof fn lemma_square_of_negated_span(p: int, q: int, cs: int)
    ensures
        ((p - q) * cs) * ((p - q) * cs) == ((q - p) * cs) * ((q - p) * cs),
{
    assert(((p - q) * cs) * ((p - q) * cs) == ((q - p) * cs) * ((q - p) * cs)) by (nonlinear_arith);
}

/// Every cell lies within any clearance of itself.
pub proof fn lemma_within_self(a: int, w: int, cs: int, cl: int)
    ensures
        within(a, a, w, cs, cl),
{
    assert(0int * 0int == 0int);
    assert(0 <= cl * cl) by (nonlinear_arith);
}

/// Cell `j` lies within `cl` of some obstacle among the first `upto` cells.
pub open spec fn near_obstacle(cells: Seq<OccupancyGridEntry>, j: int, upto: int, w: int, cs: int, cl: int) -> bool {
    exists|o: int| 0 <= o < upto && #[trigger] is_obstacle(cells[o]) && within(j, o, w, cs, cl)
}

/// Cell `j` lies within `cl` of one of `picked`.
pub open spec fn near_pick(picked: Seq<usize>, j: int, w: int, cs: int, cl: int) -> bool {
    exists|t: int| 0 <= t < picked.len() && within(j, #[trigger] picked[t] as int, w, cs, cl)
}

/// Marks every cell within `cl` of a wall, flag or capture point of `g`.
fn block_around_obstacles(g: &OccupancyGrid, cl: u32) -> (r: Vec<bool>)
    requires
        g.wf(),
        g.spec_cell_size() > 0,
    ensures
        r@.len() == g.cells().len(),
        forall|j: int|
            0 <= j < r@.len() ==> #[trigger] r@[j] == near_obstacle(
                g.cells(),
                j,
                g.cells().len() as int,
                g.spec_width() as int,
                g.spec_cell_size() as int,
                cl as int,
            ),
{
    let n = g.len();
    let w = g.width();
    let h = g.height();
    let cs = g.cell_size();
    let mut blocked: Vec<bool> = Vec::with_capacity(n);
    let mut k: usize = 0;
    while k < n
        invariant
            k <= n,
            blocked@.len() == k,
            forall|j: int| 0 <= j < k ==> !(#[trigger] blocked@[j]),
        decreases n - k,
    {
        blocked.push(false);
        k = k + 1;
    }
    let mut i: usize = 0;
    while i < n
        invariant
            g.wf(),
            n == g.cells().len(),
            n == w * h,
            w == g.spec_width(),
            h == g.spec_height(),
            cs == g.spec_cell_size(),
            cs > 0,
            i <= n,
            blocked@.len() == n,
            forall|j: int|
                0 <= j < n ==> #[trigger] blocked@[j] == near_obstacle(g.cells(), j, i as int, w as int, cs as int, cl as int),
        decreases n - i,
    {
        let e = g.entry_at(i);
        let obstacle = match e.assignment {
            Some(EntityType::Wall) => true,
            Some(EntityType::Flag) => true,
            Some(EntityType::CapturePoint) => true,
            _ => false,
        };
        if obstacle {
            mark_neighborhood_units(&mut blocked, i, w, h, cs, cl);
        }
        proof {
            assert forall|j: int| 0 <= j < n implies #[trigger] blocked@[j] == near_obstacle(
                g.cells(),
                j,
                i + 1,
                w as int,
                cs as int,
                cl as int,
            ) by {
                if near_obstacle(g.cells(), j, i + 1, w as int, cs as int, cl as int) {
                    let o = choose|o: int| 0 <= o < i + 1 && #[trigger] is_obstacle(g.cells()[o]) && within(j, o, w as int, cs as int, cl as int);
                    if o < i {
                        assert(near_obstacle(g.cells(), j, i as int, w as int, cs as int, cl as int));
                    }
                }
                if near_obstacle(g.cells(), j, i as int, w as int, cs as int, cl as int) {
                    let o = choose|o: int| 0 <= o < i && #[trigger] is_obstacle(g.cells()[o]) && within(j, o, w as int, cs as int, cl as int);
                    assert(0 <= o < i + 1);
                }
                if obstacle && within(j, i as int, w as int, cs as int, cl as int) {
                    assert(is_obstacle(g.cells()[i as int]));
                }
            }
        }
        i = i + 1;
    }
    blocked
}

/// The cells that are empty and not blocked, in increasing order.
fn collect_candidates(g: &OccupancyGrid, blocked: &Vec<bool>) -> (r: Vec<usize>)
    requires
        blocked@.len() == g.cells().len(),
    ensures
        r@ == candidates_of(g.cells(), blocked@),
        r@.no_duplicates(),
        forall|t: int|
            0 <= t < r@.len() ==> {
                &&& #[trigger] r@[t] < g.cells().len()
                &&& g.cells()[r@[t] as int].assignment == Some(EntityType::Empty)
                &&& !blocked@[r@[t] as int]
            },
        forall|i: int|
            0 <= i < g.cells().len() && g.cells()[i].assignment == Some(EntityType::Empty) && !blocked@[i]
                ==> r@.contains(i as usize),
{
    let n = g.len();
    let ghost sel = |i: int| is_candidate(g.cells(), blocked@, i);
    let mut out: Vec<usize> = Vec::new();
    let mut i: usize = 0;
    while i < n
        invariant
            n == g.cells().len(),
            blocked@.len() == n,
            i <= n,
            sel == (|i: int| is_candidate(g.cells(), blocked@, i)),
            out@ == candidates_upto(g.cells(), blocked@, i as nat),
            forall|a: int, b: int| 0 <= a < b < out@.len() ==> out@[a] < out@[b],
            forall|t: int|
                0 <= t < out@.len() ==> {
                    &&& #[trigger] out@[t] < i
                    &&& g.cells()[out@[t] as int].assignment == Some(EntityType::Empty)
                    &&& !blocked@[out@[t] as int]
                },
            forall|k: int|
                0 <= k < i && g.cells()[k].assignment == Some(EntityType::Empty) && !blocked@[k]
                    ==> out@.contains(k as usize),
        decreases n - i,
    {
        let e = g.entry_at(i);
        proof {
            let prev = Seq::new(i as nat, |k: int| k);
            let next = Seq::new((i + 1) as nat, |k: int| k);
            assert(next =~= prev.push(i as int));
            prev.lemma_filter_push(i as int, sel);
        }
        if e.assignment == Some(EntityType::Empty) && !blocked[i] {
            let ghost prior = out@;
            out.push(i);
            proof {
                assert(out@ =~= candidates_upto(g.cells(), blocked@, (i + 1) as nat));
            }
            proof {
                assert(out@[out@.len() - 1] == i);
                assert forall|k: int|
                    0 <= k < i + 1 && g.cells()[k].assignment == Some(EntityType::Empty) && !blocked@[k]
                        implies out@.contains(k as usize) by {
                    if k < i {
                        assert(prior.contains(k as usize));
                        let t = choose|t: int| 0 <= t < prior.len() && prior[t] == k as usize;
                        assert(out@[t] == k as usize);
                    } else {
                        assert(out@[out@.len() - 1] == k as usize);
                    }
                }
            }
        }
        i = i + 1;
    }
    proof {
        assert forall|a: int, b: int| 0 <= a < out@.len() && 0 <= b < out@.len() && a != b implies out@[a] != out@[b] by {
            if a < b {
                assert(out@[a] < out@[b]);
            } else {
                assert(out@[b] < out@[a]);
            }
        }
    }
    out
}

/// What rand's shuffle, driven by a ChaCha20 generator seeded with `seed`,
/// makes of `items`.
pub uninterp spec fn seeded_shuffle(items: Seq<usize>, seed: u32) -> Seq<usize>;

/// Relies on rand_chacha's `ChaCha20Rng::from_seed` and rand's
/// `SliceRandom::shuffle`: the result is a permutation of `items` that depends
/// on `items` and `seed` alone.
#[verifier::external_body]
fn shuffle_seeded(items: Vec<usize>, seed: u32) -> (r: Vec<usize>)
    ensures
        r@ == seeded_shuffle(items@, seed),
        r@.to_multiset() == items@.to_multiset(),
{
    let mut bytes = [0u8; 32];
    bytes[..4].copy_from_slice(&seed.to_le_bytes());
    let mut rng = ChaCha20Rng::from_seed(bytes);
    let mut items = items;
    items.shuffle(&mut rng);
    items
}

/// What a placement of up to `count` cells on a grid whose cells were
/// `before` guarantees: every placed cell was empty, lies farther than `cl`
/// from every wall, flag and capture point of `before` and from every other
/// placed cell; and when fewer than `count` were placed, every empty cell lies
/// within `cl` of an obstacle or of a placed cell.
pub open spec fn placement_holds(
    before: Seq<OccupancyGridEntry>,
    w: int,
    cs: int,
    cl: int,
    count: int,
    picked: Seq<usize>,
) -> bool {
    &&& picked.len() <= count
    &&& forall|t: int|
        0 <= t < picked.len() ==> #[trigger] picked[t] < before.len() && before[picked[t] as int].assignment
            == Some(EntityType::Empty)
    &&& forall|t: int, o: int|
        0 <= t < picked.len() && 0 <= o < before.len() && is_obstacle(#[trigger] before[o]) ==> !within(
            #[trigger] picked[t] as int,
            o,
            w,
            cs,
            cl,
        )
    &&& forall|s: int, t: int|
        0 <= s < picked.len() && 0 <= t < picked.len() && s != t ==> !within(
            #[trigger] picked[s] as int,
            #[trigger] picked[t] as int,
            w,
            cs,
            cl,
        )
    &&& picked.len() < count ==> forall|c: int|
        0 <= c < before.len() && (#[trigger] before[c]).assignment == Some(EntityType::Empty) ==> near_obstacle(
            before,
            c,
            before.len() as int,
            w,
            cs,
            cl,
        ) || near_pick(picked, c, w, cs, cl)
}

/// `after` is `before` with each cell of `picked` classified as `place_as`.
pub open spec fn committed(
    before: Seq<OccupancyGridEntry>,
    after: Seq<OccupancyGridEntry>,
    picked: Seq<usize>,
    place_as: EntityType,
) -> bool {
    &&& after.len() == before.len()
    &&& forall|i: int|
        0 <= i < before.len() ==> #[trigger] after[i] == if picked.contains(i as usize) {
            OccupancyGridEntry { assignment: Some(place_as), ..before[i] }
        } else {
            before[i]
        }
}

/// For each cell, whether it lies within `cl` of a wall, flag or capture
/// point of `cells`.
pub open spec fn obstacle_blocked(cells: Seq<OccupancyGridEntry>, w: int, cs: int, cl: int) -> Seq<bool> {
    Seq::new(cells.len(), |j: int| near_obstacle(cells, j, cells.len() as int, w, cs, cl))
}

/// Whether cell `i` is empty and not blocked.
pub open spec fn is_candidate(cells: Seq<OccupancyGridEntry>, blocked: Seq<bool>, i: int) -> bool {
    cells[i].assignment == Some(EntityType::Empty) && !blocked[i]
}

/// The cells among the first `n` that are empty and not blocked, in
/// increasing order.
pub open spec fn candidates_upto(cells: Seq<OccupancyGridEntry>, blocked: Seq<bool>, n: nat) -> Seq<usize> {
    Seq::new(n, |i: int| i).filter(|i: int| is_candidate(cells, blocked, i)).map_values(|i: int| i as usize)
}

/// The cells that are empty and not blocked, in increasing order.
pub open spec fn candidates_of(cells: Seq<OccupancyGridEntry>, blocked: Seq<bool>) -> Seq<usize> {
    candidates_upto(cells, blocked, cells.len())
}

/// The greedy walk over the first `t` cells of `order`: a cell is taken while
/// fewer than `count` are taken, when it is not blocked and lies farther than
/// `cl` from every cell taken before it.
pub open spec fn greedy_prefix(
    order: Seq<usize>,
    t: nat,
    blocked: Seq<bool>,
    w: int,
    cs: int,
    cl: int,
    count: int,
) -> Seq<usize>
    decreases t,
{
    if t == 0 {
        Seq::empty()
    } else {
        let p = greedy_prefix(order, (t - 1) as nat, blocked, w, cs, cl, count);
        let c = order[t - 1];
        if p.len() < count && !blocked[c as int] && !near_pick(p, c as int, w, cs, cl) {
            p.push(c)
        } else {
            p
        }
    }
}

/// The cells that placement picks: the greedy walk over the candidates in the
/// order shuffled from `seed`.
pub open spec fn placement_of(
    cells: Seq<OccupancyGridEntry>,
    w: int,
    cs: int,
    cl: int,
    count: int,
    seed: u32,
) -> Seq<usize> {
    let blocked = obstacle_blocked(cells, w, cs, cl);
    let order = seeded_shuffle(candidates_of(cells, blocked), seed);
    greedy_prefix(order, order.len(), blocked, w, cs, cl, count)
}

/// Once `count` cells are taken, the rest of the walk takes no more.
proof fn lemma_greedy_saturated(
    order: Seq<usize>,
    t: nat,
    u: nat,
    blocked: Seq<bool>,
    w: int,
    cs: int,
    cl: int,
    count: int,
)
    requires
        t <= u,
        greedy_prefix(order, t, blocked, w, cs, cl, count).len() >= count,
    ensures
        greedy_prefix(order, u, blocked, w, cs, cl, count) == greedy_prefix(order, t, blocked, w, cs, cl, count),
    decreases u - t,
{
    if u > t {
        lemma_greedy_saturated(order, t, (u - 1) as nat, blocked, w, cs, cl, count);
    }
}

/// Two placements on equal grids with equal clearance, count, class and seed
/// pick the same cells in the same order and leave equal grids.
pub proof fn lemma_placement_deterministic(
    before: Seq<OccupancyGridEntry>,
    w: int,
    cs: int,
    cl: int,
    count: int,
    place_as: EntityType,
    seed: u32,
    first: Seq<usize>,
    first_after: Seq<OccupancyGridEntry>,
    second: Seq<usize>,
    second_after: Seq<OccupancyGridEntry>,
)
    requires
        first == placement_of(before, w, cs, cl, count, seed),
        second == placement_of(before, w, cs, cl, count, seed),
        committed(before, first_after, first, place_as),
        committed(before, second_after, second, place_as),
    ensures
        first == second,
        first_after == second_after,
{
    assert(first_after =~= second_after);
}

/// Picks up to `count` empty cells of `grid` that keep `min_clear_units` of
/// clearance from walls, flags, capture points and each other, classifies them
/// as `place_as`, and returns them in the order picked. Candidates are tried in
/// an order shuffled from `seed`; a pick blocks its own neighbourhood at once.
pub fn pick_cells(
    grid: &mut OccupancyGrid,
    min_clear_units: u32,
    count: usize,
    place_as: EntityType,
    seed: u32,
) -> (r: Vec<usize>)
    requires
        old(grid).wf(),
        old(grid).spec_cell_size() > 0,
    ensures
        final(grid).wf(),
        final(grid).spec_width() == old(grid).spec_width(),
        final(grid).spec_height() == old(grid).spec_height(),
        final(grid).spec_cell_size() == old(grid).spec_cell_size(),
        placement_holds(
            old(grid).cells(),
            old(grid).spec_width() as int,
            old(grid).spec_cell_size() as int,
            min_clear_units as int,
            count as int,
            r@,
        ),
        committed(old(grid).cells(), final(grid).cells(), r@, place_as),
        r@ == placement_of(
            old(grid).cells(),
            old(grid).spec_width() as int,
            old(grid).spec_cell_size() as int,
            min_clear_units as int,
            count as int,
            seed,
        ),
{
    let ghost before = grid.cells();
    let n = grid.len();
    let w = grid.width();
    let h = grid.height();
    let cs = grid.cell_size();
    let ghost wi = w as int;
    let ghost csi = cs as int;
    let ghost cl = min_clear_units as int;
    let mut blocked = block_around_obstacles(grid, min_clear_units);
    let ghost initial = blocked@;
    let candidates = collect_candidates(grid, &blocked);
    let ghost cand = candidates@;
    let order = shuffle_seeded(candidates, seed);
    proof {
        assert(initial =~= obstacle_blocked(before, wi, csi, cl));
        cand.to_multiset_ensures();
        order@.to_multiset_ensures();
        assert forall|s: int| 0 <= s < order@.len() implies cand.contains(#[trigger] order@[s]) by {
            assert(order@.contains(order@[s]));
            assert(order@.to_multiset().count(order@[s]) > 0);
            assert(cand.to_multiset().count(order@[s]) > 0);
        }
        assert forall|c: usize| cand.contains(c) implies order@.contains(c) by {
            assert(cand.to_multiset().count(c) > 0);
            assert(order@.to_multiset().count(c) > 0);
        }
    }
    let mut picked: Vec<usize> = Vec::new();
    let mut t: usize = 0;
    while t < order.len() && picked.len() < count
        invariant
            grid.wf(),
            grid.cells() == before,
            n == before.len(),
            n == w * h,
            w == grid.spec_width(),
            h == grid.spec_height(),
            cs == grid.spec_cell_size(),
            wi == w,
            csi == cs,
            cl == min_clear_units,
            cs > 0,
            t <= order@.len(),
            picked@.len() <= count,
            initial.len() == n,
            picked@ == greedy_prefix(order@, t as nat, initial, wi, csi, cl, count as int),
            forall|j: int| 0 <= j < n ==> #[trigger] initial[j] == near_obstacle(before, j, n as int, wi, csi, cl),
            forall|s: int| 0 <= s < order@.len() ==> cand.contains(#[trigger] order@[s]),
            forall|c: usize| cand.contains(c) ==> #[trigger] order@.contains(c),
            forall|x: int|
                0 <= x < cand.len() ==> {
                    &&& #[trigger] cand[x] < n
                    &&& before[cand[x] as int].assignment == Some(EntityType::Empty)
                    &&& !initial[cand[x] as int]
                },
            blocked@.len() == n,
            forall|j: int|
                0 <= j < n ==> #[trigger] blocked@[j] == (initial[j] || near_pick(picked@, j, wi, csi, cl)),
            forall|s: int| 0 <= s < t ==> #[trigger] order@[s] < n && blocked@[order@[s] as int],
            forall|p: int|
                0 <= p < picked@.len() ==> {
                    &&& #[trigger] picked@[p] < n
                    &&& before[picked@[p] as int].assignment == Some(EntityType::Empty)
                    &&& !initial[picked@[p] as int]
                },
            forall|a: int, b: int|
                0 <= a < picked@.len() && 0 <= b < picked@.len() && a != b ==> !within(
                    #[trigger] picked@[a] as int,
                    #[trigger] picked@[b] as int,
                    wi,
                    csi,
                    cl,
                ),
        decreases order@.len() - t,
    {
        let idx = order[t];
        proof {
            let x = choose|x: int| 0 <= x < cand.len() && cand[x] == idx;
            assert(cand[x] == idx);
        }
        proof {
            assert(blocked@[idx as int] == (initial[idx as int] || near_pick(picked@, idx as int, wi, csi, cl)));
        }
        if !blocked[idx] {
            let ghost prev_picked = picked@;
            let ghost prev_blocked = blocked@;
            picked.push(idx);
            mark_neighborhood_units(&mut blocked, idx, w, h, cs, min_clear_units);
            proof {
                lemma_within_self(idx as int, wi, csi, cl);
                assert(picked@[picked@.len() - 1] == idx);
                assert forall|j: int| 0 <= j < n implies #[trigger] blocked@[j] == (initial[j] || near_pick(
                    picked@,
                    j,
                    wi,
                    csi,
                    cl,
                )) by {
                    if near_pick(prev_picked, j, wi, csi, cl) {
                        let q = choose|q: int| 0 <= q < prev_picked.len() && within(j, #[trigger] prev_picked[q] as int, wi, csi, cl);
                        assert(picked@[q] == prev_picked[q]);
                    }
                    if within(j, idx as int, wi, csi, cl) {
                        assert(picked@[picked@.len() - 1] == idx);
                    }
                    if near_pick(picked@, j, wi, csi, cl) {
                        let q = choose|q: int| 0 <= q < picked@.len() && within(j, #[trigger] picked@[q] as int, wi, csi, cl);
                        if q < prev_picked.len() {
                            assert(prev_picked[q] == picked@[q]);
                        }
                    }
                }
                assert forall|a: int, b: int|
                    0 <= a < picked@.len() && 0 <= b < picked@.len() && a != b implies !within(
                        #[trigger] picked@[a] as int,
                        #[trigger] picked@[b] as int,
                        wi,
                        csi,
                        cl,
                    ) by {
                    if a == picked@.len() - 1 {
                        assert(prev_picked[b] == picked@[b]);
                        if within(idx as int, picked@[b] as int, wi, csi, cl) {
                            assert(near_pick(prev_picked, idx as int, wi, csi, cl));
                        }
                    } else if b == picked@.len() - 1 {
                        assert(prev_picked[a] == picked@[a]);
                        lemma_within_symmetric(picked@[a] as int, idx as int, wi, csi, cl);
                        if within(idx as int, picked@[a] as int, wi, csi, cl) {
                            assert(near_pick(prev_picked, idx as int, wi, csi, cl));
                        }
                    } else {
                        assert(prev_picked[a] == picked@[a]);
                        assert(prev_picked[b] == picked@[b]);
                    }
                }
                assert forall|s: int| 0 <= s < t + 1 implies #[trigger] order@[s] < n && blocked@[order@[s] as int] by {
                    if s < t {
                        assert(prev_blocked[order@[s] as int]);
                    }
                }
            }
        }
        t = t + 1;
    }
    proof {
        if t < order@.len() {
            lemma_greedy_saturated(order@, t as nat, order@.len(), initial, wi, csi, cl, count as int);
        }
        assert(picked@ == placement_of(before, wi, csi, cl, count as int, seed));
        if picked@.len() < count {
            assert forall|c: int| 0 <= c < n && (#[trigger] before[c]).assignment == Some(EntityType::Empty) implies near_obstacle(
                before,
                c,
                n as int,
                wi,
                csi,
                cl,
            ) || near_pick(picked@, c, wi, csi, cl) by {
                if !initial[c] {
                    assert(cand.contains(c as usize));
                    assert(order@.contains(c as usize));
                    let s = choose|s: int| 0 <= s < order@.len() && order@[s] == c as usize;
                    assert(blocked@[order@[s] as int]);
                }
            }
        }
        assert forall|p: int, o: int|
            0 <= p < picked@.len() && 0 <= o < n && is_obstacle(#[trigger] before[o]) implies !within(
                #[trigger] picked@[p] as int,
                o,
                wi,
                csi,
                cl,
            ) by {
            if within(picked@[p] as int, o, wi, csi, cl) {
                assert(near_obstacle(before, picked@[p] as int, n as int, wi, csi, cl));
            }
        }
    }
    let mut k: usize = 0;
    while k < picked.len()
        invariant
            grid.wf(),
            n == before.len(),
            grid.cells().len() == n,
            w == grid.spec_width(),
            h == grid.spec_height(),
            cs == grid.spec_cell_size(),
            k <= picked@.len(),
            forall|p: int| 0 <= p < picked@.len() ==> #[trigger] picked@[p] < n,
            forall|i: int|
                0 <= i < n ==> #[trigger] grid.cells()[i] == if picked@.subrange(0, k as int).contains(i as usize) {
                    OccupancyGridEntry { assignment: Some(place_as), ..before[i] }
                } else {
                    before[i]
                },
        decreases picked@.len() - k,
    {
        grid.set_assignment_at(picked[k], Some(place_as));
        proof {
            assert forall|i: int| 0 <= i < n implies #[trigger] grid.cells()[i] == if picked@.subrange(0, k + 1).contains(i as usize) {
                OccupancyGridEntry { assignment: Some(place_as), ..before[i] }
            } else {
                before[i]
            } by {
                if picked@.subrange(0, k as int).contains(i as usize) {
                    let q = choose|q: int| 0 <= q < k && #[trigger] picked@.subrange(0, k as int)[q] == i as usize;
                    assert(picked@.subrange(0, k + 1)[q] == i as usize);
                }
                if picked@.subrange(0, k + 1).contains(i as usize) {
                    let q = choose|q: int| 0 <= q < k + 1 && #[trigger] picked@.subrange(0, k + 1)[q] == i as usize;
                    if q < k {
                        assert(picked@.subrange(0, k as int)[q] == i as usize);
                    }
                }
                if i == picked@[k as int] as int {
                    assert(picked@.subrange(0, k + 1)[k as int] == i as usize);
                }
            }
        }
        k = k + 1;
    }
    proof {
        assert(picked@.subrange(0, picked@.len() as int) == picked@);
    }
    picked
}

/// World coordinate, in thousandths, of the centre of cell `c` along an axis
/// `world` thousandths long that is centred on the origin.
pub open spec fn cell_center(c: int, cs: int, world: int) -> int {
    c * cs + cs / 2 - world / 2
}

/// World coordinates `(x, z)` of the centre of cell `(col, row)`.
pub fn grid_to_world_xy(col: usize, row: usize, cell_size: u32, world_w: u32, world_h: u32) -> (r: (i64, i64))
    requires
        cell_size > 0,
        (col + 1) * cell_size <= i64::MAX,
        (row + 1) * cell_size <= i64::MAX,
    ensures
        r.0 == cell_center(col as int, cell_size as int, world_w as int),
        r.1 == cell_center(row as int, cell_size as int, world_h as int),
{
    proof {
        assert(col * cell_size + cell_size == (col + 1) * cell_size) by (nonlinear_arith);
        assert(row * cell_size + cell_size == (row + 1) * cell_size) by (nonlinear_arith);
        assert(0 <= col * cell_size) by (nonlinear_arith);
        assert(0 <= row * cell_size) by (nonlinear_arith);
        assert(col <= (col + 1) * cell_size) by (nonlinear_arith)
            requires
                cell_size > 0,
        ;
        assert(row <= (row + 1) * cell_size) by (nonlinear_arith)
            requires
                cell_size > 0,
        ;
    }
    let x = (col as i64) * (cell_size as i64) + (cell_size / 2) as i64 - (world_w / 2) as i64;
    let z = (row as i64) * (cell_size as i64) + (cell_size / 2) as i64 - (world_h / 2) as i64;
    (x, z)
}

/// A cell chosen for new content, with the world coordinates of its centre.
#[derive(Clone, Copy, Debug, PartialEq, Eq, Structural)]
pub struct Placement {
    pub cell: usize,
    pub x: i64,
    pub z: i64,
}

/// The world coordinates of cell `i` on a grid `w` by `h` of cells `cs` on a
/// side, once the bounds that keep them in an `i64` are known.
fn center_of(i: usize, w: usize, h: usize, cs: u32, world_w: u32, world_h: u32) -> (r: Placement)
    requires
        i < w * h,
        cs > 0,
        (w + 1) * cs <= i64::MAX,
        (h + 1) * cs <= i64::MAX,
    ensures
        r.cell == i,
        r.x == cell_center(col_of(i as int, w as int), cs as int, world_w as int),
        r.z == cell_center(row_of(i as int, w as int), cs as int, world_h as int),
{
    proof {
        assert(w > 0) by (nonlinear_arith)
            requires
                i < w * h,
        ;
    }
    let col = i % w;
    let row = i / w;
    proof {
        lemma_fundamental_div_mod(i as int, w as int);
        vstd::arithmetic::div_mod::lemma_mod_bound(i as int, w as int);
        vstd::arithmetic::div_mod::lemma_div_pos_is_pos(i as int, w as int);
        assert(row < h) by (nonlinear_arith)
            requires
                i == w * row + col,
                i < w * h,
                col >= 0,
                w > 0,
        {
            if row >= h {
                assert(w * row >= w * h);
            }
        }
        assert((col + 1) * cs <= (w + 1) * cs) by (nonlinear_arith)
            requires
                col < w,
        ;
        assert((row + 1) * cs <= (h + 1) * cs) by (nonlinear_arith)
            requires
                row < h,
        ;
    }
    let (x, z) = grid_to_world_xy(col, row, cs, world_w, world_h);
    Placement { cell: i, x, z }
}

/// Picks up to `count` cells for `place_as` as `pick_cells` does, and gives
/// each with the world coordinates of its centre on a world `world_w` by
/// `world_h` thousandths in size.
pub fn pick_positions_for(
    grid: &mut OccupancyGrid,
    min_clear_units: u32,
    count: usize,
    place_as: EntityType,
    seed: u32,
    world_w: u32,
    world_h: u32,
) -> (r: Vec<Placement>)
    requires
        old(grid).wf(),
        old(grid).spec_cell_size() > 0,
        (old(grid).spec_width() + 1) * old(grid).spec_cell_size() <= i64::MAX,
        (old(grid).spec_height() + 1) * old(grid).spec_cell_size() <= i64::MAX,
    ensures
        final(grid).wf(),
        final(grid).spec_width() == old(grid).spec_width(),
        final(grid).spec_height() == old(grid).spec_height(),
        final(grid).spec_cell_size() == old(grid).spec_cell_size(),
        placement_holds(
            old(grid).cells(),
            old(grid).spec_width() as int,
            old(grid).spec_cell_size() as int,
            min_clear_units as int,
            count as int,
            r@.map_values(|p: Placement| p.cell),
        ),
        committed(old(grid).cells(), final(grid).cells(), r@.map_values(|p: Placement| p.cell), place_as),
        r@.map_values(|p: Placement| p.cell) == placement_of(
            old(grid).cells(),
            old(grid).spec_width() as int,
            old(grid).spec_cell_size() as int,
            min_clear_units as int,
            count as int,
            seed,
        ),
        forall|t: int|
            0 <= t < r@.len() ==> {
                &&& (#[trigger] r@[t]).x == cell_center(
                    col_of(r@[t].cell as int, old(grid).spec_width() as int),
                    old(grid).spec_cell_size() as int,
                    world_w as int,
                )
                &&& r@[t].z == cell_center(
                    row_of(r@[t].cell as int, old(grid).spec_width() as int),
                    old(grid).spec_cell_size() as int,
                    world_h as int,
                )
            },
{
    let w = grid.width();
    let h = grid.height();
    let cs = grid.cell_size();
    let picked = pick_cells(grid, min_clear_units, count, place_as, seed);
    let mut out: Vec<Placement> = Vec::with_capacity(picked.len());
    let mut k: usize = 0;
    while k < picked.len()
        invariant
            k <= picked@.len(),
            out@.len() == k,
            w * h == old(grid).cells().len(),
            w == old(grid).spec_width(),
            cs == old(grid).spec_cell_size(),
            cs > 0,
            (w + 1) * cs <= i64::MAX,
            (h + 1) * cs <= i64::MAX,
            forall|p: int| 0 <= p < picked@.len() ==> #[trigger] picked@[p] < old(grid).cells().len(),
            forall|t: int| 0 <= t < k ==> (#[trigger] out@[t]).cell == picked@[t],
            forall|t: int|
                0 <= t < k ==> {
                    &&& (#[trigger] out@[t]).x == cell_center(col_of(out@[t].cell as int, w as int), cs as int, world_w as int)
                    &&& out@[t].z == cell_center(row_of(out@[t].cell as int, w as int), cs as int, world_h as int)
                },
        decreases picked@.len() - k,
    {
        out.push(center_of(picked[k], w, h, cs, world_w, world_h));
        k = k + 1;
    }
    proof {
        assert(out@.map_values(|p: Placement| p.cell) =~= picked@);
    }
    out
}

/// What rand's `choose`, driven by a ChaCha20 generator seeded with `seed`,
/// picks from `items`.
pub uninterp spec fn seeded_choice(items: Seq<usize>, seed: u32) -> usize;

/// Relies on rand_chacha's `ChaCha20Rng::from_seed` and rand's
/// `IndexedRandom::choose`: one of `items`, depending on `items` and `seed`
/// alone.
#[verifier::external_body]
fn choose_seeded(items: &Vec<usize>, seed: u32) -> (r: usize)
    requires
        items@.len() > 0,
    ensures
        r == seeded_choice(items@, seed),
        items@.contains(r),
{
    let mut bytes = [0u8; 32];
    bytes[..4].copy_from_slice(&seed.to_le_bytes());
    let mut rng = ChaCha20Rng::from_seed(bytes);
    *items.choose(&mut rng).unwrap()
}

/// The indices of the empty cells.
pub open spec fn empty_cells(cells: Seq<OccupancyGridEntry>) -> Set<usize> {
    Set::new(|i: usize| i < cells.len() && cells[i as int].assignment == Some(EntityType::Empty))
}

/// The indices of the empty cells among the first `n`, in increasing order.
pub open spec fn empty_indices_upto(cells: Seq<OccupancyGridEntry>, n: nat) -> Seq<usize> {
    Seq::new(n, |i: int| i).filter(|i: int| cells[i].assignment == Some(EntityType::Empty)).map_values(|i: int| i as usize)
}

/// Where the agent starts: an empty cell chosen from `seed`, with the world
/// coordinates of its centre; none when no cell is empty.
pub fn spawn_agent_position(grid: &OccupancyGrid, seed: u32, world_w: u32, world_h: u32) -> (r: Option<Placement>)
    requires
        grid.wf(),
        grid.spec_cell_size() > 0,
        (grid.spec_width() + 1) * grid.spec_cell_size() <= i64::MAX,
        (grid.spec_height() + 1) * grid.spec_cell_size() <= i64::MAX,
    ensures
        r is None <==> empty_cells(grid.cells()).is_empty(),
        r is Some ==> {
            let p = r->Some_0;
            &&& p.cell == seeded_choice(empty_indices_upto(grid.cells(), grid.cells().len()), seed)
            &&& empty_cells(grid.cells()).contains(p.cell)
            &&& p.x == cell_center(col_of(p.cell as int, grid.spec_width() as int), grid.spec_cell_size() as int, world_w as int)
            &&& p.z == cell_center(row_of(p.cell as int, grid.spec_width() as int), grid.spec_cell_size() as int, world_h as int)
        },
{
    let n = grid.len();
    let ghost sel = |i: int| grid.cells()[i].assignment == Some(EntityType::Empty);
    let mut free: Vec<usize> = Vec::new();
    let mut i: usize = 0;
    while i < n
        invariant
            i <= n,
            n == grid.cells().len(),
            sel == (|i: int| grid.cells()[i].assignment == Some(EntityType::Empty)),
            free@ == empty_indices_upto(grid.cells(), i as nat),
            forall|t: int| 0 <= t < free@.len() ==> empty_cells(grid.cells()).contains(#[trigger] free@[t]),
            forall|k: usize| k < i && empty_cells(grid.cells()).contains(k) ==> free@.contains(k),
        decreases n - i,
    {
        proof {
            let prev = Seq::new(i as nat, |k: int| k);
            let next = Seq::new((i + 1) as nat, |k: int| k);
            assert(next =~= prev.push(i as int));
            prev.lemma_filter_push(i as int, sel);
        }
        if grid.entry_at(i).assignment == Some(EntityType::Empty) {
            let ghost prior = free@;
            free.push(i);
            proof {
                assert(free@ =~= empty_indices_upto(grid.cells(), (i + 1) as nat));
                assert(free@[free@.len() - 1] == i);
                assert forall|k: usize| k < i + 1 && empty_cells(grid.cells()).contains(k) implies free@.contains(k) by {
                    if k < i {
                        assert(prior.contains(k));
                        let t = choose|t: int| 0 <= t < prior.len() && prior[t] == k;
                        assert(free@[t] == k);
                    }
                }
            }
        }
        i = i + 1;
    }
    if free.len() == 0 {
        proof {
            assert forall|k: usize| !empty_cells(grid.cells()).contains(k) by {
                if empty_cells(grid.cells()).contains(k) {
                    assert(free@.contains(k));
                }
            }
            assert(empty_cells(grid.cells()) =~= Set::empty());
        }
        return None;
    }
    let cell = choose_seeded(&free, seed);
    proof {
        let t = choose|t: int| 0 <= t < free@.len() && free@[t] == cell;
        assert(empty_cells(grid.cells()).contains(free@[t]));
        assert(!empty_cells(grid.cells()).is_empty());
    }
    Some(center_of(cell, grid.width(), grid.height(), grid.cell_size(), world_w, world_h))
}

/// A cell where content may go: empty and farther than `cl` from every wall,
/// flag and capture point.
pub open spec fn valid_cell(before: Seq<OccupancyGridEntry>, c: int, w: int, cs: int, cl: int) -> bool {
    0 <= c < before.len() && before[c].assignment == Some(EntityType::Empty) && !near_obstacle(
        before,
        c,
        before.len() as int,
        w,
        cs,
        cl,
    )
}

/// When the valid cells fall into groups, cells of different groups lying
/// farther than the clearance apart, and at least `count` groups are
/// non-empty (shown by `witnesses`, one cell from each of `count` distinct
/// groups), a placement of `count` items places all `count`.
pub proof fn lemma_separated_groups_place_all(
    before: Seq<OccupancyGridEntry>,
    w: int,
    cs: int,
    cl: int,
    count: int,
    picked: Seq<usize>,
    group: spec_fn(int) -> int,
    witnesses: Seq<usize>,
)
    requires
        placement_holds(before, w, cs, cl, count, picked),
        count <= witnesses.len(),
        forall|t: int| 0 <= t < witnesses.len() ==> valid_cell(before, #[trigger] witnesses[t] as int, w, cs, cl),
        forall|s: int, t: int|
            0 <= s < witnesses.len() && 0 <= t < witnesses.len() && s != t ==> group(#[trigger] witnesses[s] as int)
                != group(#[trigger] witnesses[t] as int),
        forall|a: int, b: int|
            valid_cell(before, a, w, cs, cl) && valid_cell(before, b, w, cs, cl) && group(a) != group(b) ==> !(
            #[trigger] within(a, b, w, cs, cl)),
    ensures
        picked.len() == count,
{
    if picked.len() < count {
        let f = |t: int| choose|q: int| 0 <= q < picked.len() && within(witnesses[t] as int, #[trigger] picked[q] as int, w, cs, cl);
        let xs = vstd::set_lib::set_int_range(0, count);
        let ys = xs.map(f);
        vstd::set_lib::lemma_int_range(0, count);
        assert forall|q: int| 0 <= q < picked.len() implies #[trigger] valid_cell(before, picked[q] as int, w, cs, cl) by {
            if near_obstacle(before, picked[q] as int, before.len() as int, w, cs, cl) {
                let o = choose|o: int| 0 <= o < before.len() && #[trigger] is_obstacle(before[o]) && within(
                    picked[q] as int,
                    o,
                    w,
                    cs,
                    cl,
                );
                assert(!within(picked[q] as int, o, w, cs, cl));
            }
        }
        assert forall|t: int| #[trigger] xs.contains(t) implies 0 <= f(t) < picked.len() && within(
            witnesses[t] as int,
            picked[f(t)] as int,
            w,
            cs,
            cl,
        ) && group(picked[f(t)] as int) == group(witnesses[t] as int) by {
            let c = witnesses[t] as int;
            assert(valid_cell(before, c, w, cs, cl));
            assert(before[c].assignment == Some(EntityType::Empty));
            assert(near_pick(picked, c, w, cs, cl));
            assert(valid_cell(before, picked[f(t)] as int, w, cs, cl));
        }
        assert forall|a: int, b: int| xs.contains(a) && xs.contains(b) && #[trigger] f(a) == #[trigger] f(b) implies a == b by {
            if a != b {
                assert(group(witnesses[a] as int) != group(witnesses[b] as int));
            }
        }
        assert(vstd::relations::injective_on(f, xs));
        vstd::set_lib::lemma_map_size(xs, ys, f);
        let range = vstd::set_lib::set_int_range(0, picked.len() as int);
        vstd::set_lib::lemma_int_range(0, picked.len() as int);
        assert forall|q: int| ys.contains(q) implies range.contains(q) by {
            let t = choose|t: int| xs.contains(t) && f(t) == q;
        }
        vstd::set_lib::lemma_len_subset(ys, range);
    }
}

} // verus!
