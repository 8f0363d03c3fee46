//! Picking up and capturing flags: which flag an agent takes, and which flags
//! a capture point claims.
use vstd::prelude::*;

verus! {

/// Where a flag is.
#[derive(Clone, Copy, Debug, PartialEq, Eq, Structural)]
pub enum FlagStatus {
    Dropped,
    PickedUp,
    Captured,
}

/// A flag's position (thousandths) and status.
#[derive(Clone, Copy, Debug, PartialEq, Eq, Structural)]
pub struct FlagSlot {
    pub x: i64,
    pub z: i64,
    pub status: FlagStatus,
}

/// Squared distance between two points, in squared thousandths.
pub open spec fn sq_dist(a: (i64, i64), b: (i64, i64)) -> int {
    (a.0 - b.0) * (a.0 - b.0) + (a.1 - b.1) * (a.1 - b.1)
}

/// A dropped flag strictly closer than `radius` to `p`.
pub open spec fn reachable(p: (i64, i64), radius: u32, f: FlagSlot) -> bool {
    f.status == FlagStatus::Dropped && sq_dist(p, (f.x, f.z)) < radius * radius
}

fn is_reachable(p: (i64, i64), radius: u32, f: &FlagSlot) -> (r: bool)
    ensures
        r == reachable(p, radius, *f),
{
    let dx: i128 = p.0 as i128 - f.x as i128;
    let dz: i128 = p.1 as i128 - f.z as i128;
    let ax: i128 = if dx < 0 { -dx } else { dx };
    let az: i128 = if dz < 0 { -dz } else { dz };
    proof {
        assert(dx * dx == ax * ax) by (nonlinear_arith)
            requires
                ax == dx || ax == -dx,
        ;
        assert(dz * dz == az * az) by (nonlinear_arith)
            requires
                az == dz || az == -dz,
        ;
        assert(0 <= az * az) by (nonlinear_arith);
        assert(0 <= ax * ax) by (nonlinear_arith);
    }
    if f.status != FlagStatus::Dropped {
        return false;
    }
    if ax >= radius as i128 || az >= radius as i128 {
        proof {
            assert(ax * ax + az * az >= radius * radius) by (nonlinear_arith)
                requires
                    ax >= radius || az >= radius,
                    ax >= 0,
                    az >= 0,
                    radius >= 0,
            ;
        }
        return false;
    }
    proof {
        assert(ax * ax < 0x1_0000_0000 * 0x1_0000_0000) by (nonlinear_arith)
            requires
                0 <= ax < 0x1_0000_0000,
        ;
        assert(az * az < 0x1_0000_0000 * 0x1_0000_0000) by (nonlinear_arith)
            requires
                0 <= az < 0x1_0000_0000,
        ;
        assert(radius * radius < 0x1_0000_0000 * 0x1_0000_0000) by (nonlinear_arith)
            requires
                0 <= radius < 0x1_0000_0000,
        ;
    }
    ax * ax + az * az < (radius as i128) * (radius as i128)
}

/// The flag an agent at `p` picks up: the first dropped flag closer than
/// `radius`, unless the agent already carries one.
pub fn pickup_target(p: (i64, i64), radius: u32, carrying: bool, flags: &Vec<FlagSlot>) -> (r: Option<usize>)
    ensures
        carrying ==> r is None,
        !carrying && r is None ==> forall|i: int| 0 <= i < flags@.len() ==> !reachable(p, radius, #[trigger] flags@[i]),
        r is Some ==> {
            &&& r->Some_0 < flags@.len()
            &&& reachable(p, radius, flags@[r->Some_0 as int])
            &&& forall|i: int| 0 <= i < r->Some_0 ==> !reachable(p, radius, #[trigger] flags@[i])
        },
{
    if carrying {
        return None;
    }
    let mut i: usize = 0;
    while i < flags.len()
        invariant
            i <= flags@.len(),
            !carrying,
            forall|k: int| 0 <= k < i ==> !reachable(p, radius, #[trigger] flags@[k]),
        decreases flags@.len() - i,
    {
        if is_reachable(p, radius, &flags[i]) {
            return Some(i);
        }
        i = i + 1;
    }
    None
}

/// The flags that a capture point at `p` claims: every dropped flag closer
/// than `radius`, in order, unless it already holds a flag.
pub fn capture_targets(p: (i64, i64), radius: u32, holds_flag: bool, flags: &Vec<FlagSlot>) -> (r: Vec<usize>)
    ensures
        holds_flag ==> r@.len() == 0,
        !holds_flag ==> r@ == Seq::new(flags@.len() as nat, |i: int| i).filter(|i: int| reachable(p, radius, flags@[i])).map_values(
            |i: int| i as usize,
        ),
{
    let ghost sel = |i: int| reachable(p, radius, flags@[i]);
    let mut out: Vec<usize> = Vec::new();
    if holds_flag {
        return out;
    }
    let mut i: usize = 0;
    while i < flags.len()
        invariant
            i <= flags@.len(),
            sel == (|i: int| reachable(p, radius, flags@[i])),
            out@ == Seq::new(i as nat, |k: int| k).filter(sel).map_values(|k: int| k as usize),
        decreases flags@.len() - i,
    {
        proof {
            let prev = Seq::new(i as nat, |k: int| k);
            let next = Seq::new((i + 1) as nat, |k: int| k);
            assert(next =~= prev.push(i as int));
            assert(next.drop_last() =~= prev);
            assert(next.filter(sel) == if sel(i as int) { prev.filter(sel).push(i as int) } else { prev.filter(sel) }) by {
                prev.lemma_filter_push(i as int, sel);
            }
        }
        if is_reachable(p, radius, &flags[i]) {
            out.push(i);
            proof {
                assert(out@ =~= Seq::new((i + 1) as nat, |k: int| k).filter(sel).map_values(|k: int| k as usize));
            }
        }
        i = i + 1;
    }
    out
}

} // verus!
