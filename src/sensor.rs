//! The sensor model: probe readings resolved into classified hits with
//! confidences, ordered by angle, and the noise that turns a true reading into
//! a reported one.
use vstd::prelude::*;
use crate::grid::EntityType;

verus! {

broadcast use vstd::seq_lib::group_to_multiset_ensures;

/// Belief over the four classes, each in thousandths.
#[derive(Clone, Copy, Debug, PartialEq, Eq, Structural)]
pub struct SensorConfidence {
    pub p_free: u32,
    pub p_wall: u32,
    pub p_flag: u32,
    pub p_capture_point: u32,
}

impl SensorConfidence {
    pub fn new(p_free: u32, p_wall: u32, p_flag: u32, p_capture_point: u32) -> (r: SensorConfidence)
        ensures
            r == (SensorConfidence { p_free, p_wall, p_flag, p_capture_point }),
    {
        SensorConfidence { p_free, p_wall, p_flag, p_capture_point }
    }

    /// `(p_free, p_wall, p_flag, p_capture_point)`.
    pub fn as_tuple(&self) -> (r: (u32, u32, u32, u32))
        ensures
            r == (self.p_free, self.p_wall, self.p_flag, self.p_capture_point),
    {
        (self.p_free, self.p_wall, self.p_flag, self.p_capture_point)
    }
}

/// The confidence attached to each resolved class, and the confidence that
/// the space a probe crossed is free.
#[derive(Clone, Copy, Debug, PartialEq, Eq, Structural)]
pub struct ConfidenceTable {
    pub wall: SensorConfidence,
    pub empty: SensorConfidence,
    pub flag: SensorConfidence,
    pub capture_point: SensorConfidence,
    pub unknown: SensorConfidence,
    pub free_space: SensorConfidence,
}

impl ConfidenceTable {
    /// The confidence attached to a hit of class `t`.
    pub open spec fn spec_for(self, t: EntityType) -> SensorConfidence {
        match t {
            EntityType::Wall => self.wall,
            EntityType::Empty => self.empty,
            EntityType::Flag => self.flag,
            EntityType::CapturePoint => self.capture_point,
            EntityType::Unknown => self.unknown,
        }
    }

    /// The confidence attached to a hit of class `t`.
    pub fn confidence_by_entity_type(&self, t: EntityType) -> (r: SensorConfidence)
        ensures
            r == self.spec_for(t),
    {
        match t {
            EntityType::Wall => self.wall,
            EntityType::Empty => self.empty,
            EntityType::Flag => self.flag,
            EntityType::CapturePoint => self.capture_point,
            EntityType::Unknown => self.unknown,
        }
    }

    /// The standard table: confidence concentrated on the resolved class,
    /// near-uniform for an unknown hit.
    pub fn standard() -> (r: ConfidenceTable)
        ensures
            r.wall == (SensorConfidence { p_free: 50, p_wall: 900, p_flag: 50, p_capture_point: 50 }),
            r.empty == (SensorConfidence { p_free: 850, p_wall: 150, p_flag: 200, p_capture_point: 200 }),
            r.flag == (SensorConfidence { p_free: 50, p_wall: 100, p_flag: 850, p_capture_point: 100 }),
            r.capture_point == (SensorConfidence { p_free: 50, p_wall: 100, p_flag: 100, p_capture_point: 850 }),
            r.unknown == (SensorConfidence { p_free: 250, p_wall: 250, p_flag: 250, p_capture_point: 250 }),
            r.free_space == (SensorConfidence { p_free: 900, p_wall: 10, p_flag: 45, p_capture_point: 45 }),
    {
        ConfidenceTable {
            wall: SensorConfidence::new(50, 900, 50, 50),
            empty: SensorConfidence::new(850, 150, 200, 200),
            flag: SensorConfidence::new(50, 100, 850, 100),
            capture_point: SensorConfidence::new(50, 100, 100, 850),
            unknown: SensorConfidence::new(250, 250, 250, 250),
            free_space: SensorConfidence::new(900, 10, 45, 45),
        }
    }
}

/// What one probe found: its angle in millionths of a radian, its reach in
/// thousandths of a world unit, and the class and distance of what it hit, if
/// anything within reach.
#[derive(Clone, Copy, Debug, PartialEq, Eq, Structural)]
pub struct ProbeReading {
    pub theta: i32,
    pub max_distance: u32,
    pub hit: Option<ProbeHit>,
}

/// The class of what a probe hit, and its distance in thousandths.
#[derive(Clone, Copy, Debug, PartialEq, Eq, Structural)]
pub struct ProbeHit {
    pub kind: EntityType,
    pub distance: u32,
}

/// A resolved probe: angle, class, measured distance, reach, and the two
/// confidences.
#[derive(Clone, Copy, Debug, PartialEq, Eq, Structural)]
pub struct HitInfo {
    pub theta: i32,
    pub hit: EntityType,
    pub distance: u32,
    pub max_distance: u32,
    pub hit_confidence: SensorConfidence,
    pub free_confidence: SensorConfidence,
}

/// A probe resolved: what it hit and at what distance, or empty space out to
/// its reach.
pub open spec fn resolved(p: ProbeReading, table: ConfidenceTable) -> HitInfo {
    let (t, d) = match p.hit {
        Some(h) => (h.kind, h.distance),
        None => (EntityType::Empty, p.max_distance),
    };
    HitInfo {
        theta: p.theta,
        hit: t,
        distance: d,
        max_distance: p.max_distance,
        hit_confidence: table.spec_for(t),
        free_confidence: table.free_space,
    }
}

/// Resolves one probe.
pub fn resolve_probe(p: &ProbeReading, table: &ConfidenceTable) -> (r: HitInfo)
    ensures
        r == resolved(*p, *table),
{
    let (t, d) = match p.hit {
        Some(h) => (h.kind, h.distance),
        None => (EntityType::Empty, p.max_distance),
    };
    HitInfo {
        theta: p.theta,
        hit: t,
        distance: d,
        max_distance: p.max_distance,
        hit_confidence: table.confidence_by_entity_type(t),
        free_confidence: table.free_space,
    }
}

/// The hits are in ascending order of angle.
pub open spec fn sorted_by_theta(s: Seq<HitInfo>) -> bool {
    forall|a: int, b: int| 0 <= a < b < s.len() ==> s[a].theta <= s[b].theta
}

/// Every item of `a` is an item of `b` when the two hold the same items.
proof fn lemma_same_items_contained<A>(a: Seq<A>, b: Seq<A>)
    requires
        a.to_multiset() == b.to_multiset(),
    ensures
        forall|t: int| 0 <= t < a.len() ==> b.contains(#[trigger] a[t]),
{
    assert forall|t: int| 0 <= t < a.len() implies b.contains(#[trigger] a[t]) by {
        assert(a.contains(a[t]));
        assert(a.to_multiset().count(a[t]) > 0);
    }
}

/// Resolves every probe and returns the hits in ascending order of angle,
/// probes of equal angle in the order given.
pub fn collect_hits(probes: &Vec<ProbeReading>, table: &ConfidenceTable) -> (r: Vec<HitInfo>)
    ensures
        sorted_by_theta(r@),
        r@.to_multiset() == probes@.map_values(|p: ProbeReading| resolved(p, *table)).to_multiset(),
        forall|t: int|
            0 <= t < r@.len() ==> probes@.map_values(|p: ProbeReading| resolved(p, *table)).contains(#[trigger] r@[t]),
{
    let ghost all = probes@.map_values(|p: ProbeReading| resolved(p, *table));
    let mut out: Vec<HitInfo> = Vec::with_capacity(probes.len());
    let mut k: usize = 0;
    while k < probes.len()
        invariant
            k <= probes@.len(),
            all == probes@.map_values(|p: ProbeReading| resolved(p, *table)),
            sorted_by_theta(out@),
            out@.to_multiset() == all.subrange(0, k as int).to_multiset(),
        decreases probes@.len() - k,
    {
        let x = resolve_probe(&probes[k], table);
        let mut p: usize = 0;
        while p < out.len() && out[p].theta <= x.theta
            invariant
                p <= out@.len(),
                forall|a: int| 0 <= a < p ==> (#[trigger] out@[a]).theta <= x.theta,
            decreases out@.len() - p,
        {
            p = p + 1;
        }
        let ghost prior = out@;
        proof {
            assert forall|b: int| p <= b < prior.len() implies (#[trigger] prior[b]).theta > x.theta by {
                assert(prior[p as int].theta > x.theta);
            }
        }
        out.insert(p, x);
        proof {
            assert(out@ =~= prior.subrange(0, p as int) + seq![x] + prior.subrange(p as int, prior.len() as int));
            assert(prior =~= prior.subrange(0, p as int) + prior.subrange(p as int, prior.len() as int));
            vstd::seq_lib::lemma_multiset_commutative(prior.subrange(0, p as int) + seq![x], prior.subrange(p as int, prior.len() as int));
            vstd::seq_lib::lemma_multiset_commutative(prior.subrange(0, p as int), seq![x]);
            vstd::seq_lib::lemma_multiset_commutative(prior.subrange(0, p as int), prior.subrange(p as int, prior.len() as int));
            assert(all.subrange(0, k + 1) =~= all.subrange(0, k as int).push(x));
            assert(out@.to_multiset() =~= prior.to_multiset().insert(x));
            assert forall|a: int, b: int| 0 <= a < b < out@.len() implies out@[a].theta <= out@[b].theta by {
                if b < p {
                } else if b == p {
                } else if a < p {
                    assert(out@[b] == prior[b - 1]);
                } else if a == p {
                    assert(out@[b] == prior[b - 1]);
                } else {
                    assert(out@[a] == prior[a - 1]);
                    assert(out@[b] == prior[b - 1]);
                }
            }
        }
        k = k + 1;
    }
    proof {
        assert(all.subrange(0, probes@.len() as int) =~= all);
        lemma_same_items_contained(out@, all);
    }
    out
}

/// `v` limited to `[0, max]`.
pub open spec fn clamp_range(v: int, max: int) -> int {
    if v < 0 {
        0
    } else if v > max {
        max
    } else {
        v
    }
}

/// The hit as reported with `noise` added to its distance, which stays within
/// `[0, max_distance]`.
pub fn noisy_hit(h: &HitInfo, noise: i64) -> (r: HitInfo)
    ensures
        r == (HitInfo { distance: clamp_range(h.distance + noise, h.max_distance as int) as u32, ..*h }),
{
    let d: i128 = h.distance as i128 + noise as i128;
    let c: u32 = if d < 0 {
        0
    } else if d > h.max_distance as i128 {
        h.max_distance
    } else {
        d as u32
    };
    HitInfo { distance: c, ..*h }
}

/// `p` shifted by `noise`, saturating at the ends of `i64`.
pub open spec fn shifted(p: (i64, i64), noise: (i64, i64)) -> (i64, i64) {
    (clamp_i64(p.0 + noise.0) as i64, clamp_i64(p.1 + noise.1) as i64)
}

pub open spec fn clamp_i64(v: int) -> int {
    if v < i64::MIN {
        i64::MIN as int
    } else if v > i64::MAX {
        i64::MAX as int
    } else {
        v
    }
}

fn saturating_add(a: i64, b: i64) -> (r: i64)
    ensures
        r == clamp_i64(a + b),
{
    let s: i128 = a as i128 + b as i128;
    if s < i64::MIN as i128 {
        i64::MIN
    } else if s > i64::MAX as i128 {
        i64::MAX
    } else {
        s as i64
    }
}

/// What the agent knows of itself and its surroundings at one tick: id,
/// position (thousandths), the spread of the position noise (thousandths),
/// the hits in ascending order of angle, the flag it carries, its top speed
/// (thousandths per second).
#[derive(Debug)]
pub struct AgentState {
    pub id: u32,
    pub position: (i64, i64),
    pub position_stddev: u32,
    pub raycasts: Vec<HitInfo>,
    pub flag: Option<u32>,
    pub max_speed: u32,
}

/// The reported state made from the true one: `position_noise` added to the
/// position and `range_noise[i]` to the distance of hit `i`, every distance
/// kept within its probe's reach.
pub fn noisy_agent_state(truth: &AgentState, position_noise: (i64, i64), range_noise: &Vec<i64>) -> (r: AgentState)
    requires
        range_noise@.len() == truth.raycasts@.len(),
    ensures
        r.id == truth.id,
        r.position == shifted(truth.position, position_noise),
        r.position_stddev == truth.position_stddev,
        r.flag == truth.flag,
        r.max_speed == truth.max_speed,
        r.raycasts@.len() == truth.raycasts@.len(),
        forall|i: int|
            0 <= i < r.raycasts@.len() ==> #[trigger] r.raycasts@[i] == (HitInfo {
                distance: clamp_range(
                    truth.raycasts@[i].distance + range_noise@[i],
                    truth.raycasts@[i].max_distance as int,
                ) as u32,
                ..truth.raycasts@[i]
            }),
{
    let mut hits: Vec<HitInfo> = Vec::with_capacity(truth.raycasts.len());
    let mut i: usize = 0;
    while i < truth.raycasts.len()
        invariant
            i <= truth.raycasts@.len(),
            range_noise@.len() == truth.raycasts@.len(),
            hits@.len() == i,
            forall|k: int|
                0 <= k < i ==> #[trigger] hits@[k] == (HitInfo {
                    distance: clamp_range(
                        truth.raycasts@[k].distance + range_noise@[k],
                        truth.raycasts@[k].max_distance as int,
                    ) as u32,
                    ..truth.raycasts@[k]
                }),
        decreases truth.raycasts@.len() - i,
    {
        hits.push(noisy_hit(&truth.raycasts[i], range_noise[i]));
        i = i + 1;
    }
    AgentState {
        id: truth.id,
        position: (saturating_add(truth.position.0, position_noise.0), saturating_add(truth.position.1, position_noise.1)),
        position_stddev: truth.position_stddev,
        raycasts: hits,
        flag: truth.flag,
        max_speed: truth.max_speed,
    }
}

/// A snapshot handed to the decision process: the agent, the flag counts and
/// the world's extent in thousandths.
#[derive(Debug)]
pub struct GameState {
    pub agent: AgentState,
    pub total_flags: u32,
    pub collected_flags: u32,
    pub world_width: u32,
    pub world_height: u32,
}

/// Resolving and ordering keeps every angle within the range that the probes'
/// angles lie in.
pub proof fn lemma_hits_keep_angle_range(
    probes: Seq<ProbeReading>,
    table: ConfidenceTable,
    hits: Seq<HitInfo>,
    lo: int,
    hi: int,
)
    requires
        forall|j: int| 0 <= j < probes.len() ==> lo <= (#[trigger] probes[j]).theta <= hi,
        forall|t: int|
            0 <= t < hits.len() ==> probes.map_values(|p: ProbeReading| resolved(p, table)).contains(#[trigger] hits[t]),
    ensures
        forall|t: int| 0 <= t < hits.len() ==> lo <= (#[trigger] hits[t]).theta <= hi,
{
    let all = probes.map_values(|p: ProbeReading| resolved(p, table));
    assert forall|t: int| 0 <= t < hits.len() implies lo <= (#[trigger] hits[t]).theta <= hi by {
        assert(all.contains(hits[t]));
        let j = choose|j: int| 0 <= j < all.len() && all[j] == hits[t];
        assert(all[j] == resolved(probes[j], table));
    }
}

} // verus!
