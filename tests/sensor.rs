use maze_arena::grid::EntityType;
use maze_arena::sensor::{
    collect_hits, noisy_agent_state, noisy_hit, resolve_probe, AgentState, ConfidenceTable, ProbeHit, ProbeReading,
    SensorConfidence,
};

fn ring(n: u32, max_distance: u32) -> Vec<ProbeReading> {
    (0..n)
        .map(|i| {
            let theta = (2 * i + 1) as f64 * (std::f64::consts::TAU / (2 * n) as f64);
            let a = theta.sin().atan2(theta.cos());
            ProbeReading { theta: (a * 1_000_000.0).round() as i32, max_distance, hit: None }
        })
        .collect()
}

#[test]
fn open_space_ring_of_sixteen_probes() {
    let table = ConfidenceTable::standard();
    let hits = collect_hits(&ring(16, 20_000), &table);
    assert_eq!(hits.len(), 16);
    for w in hits.windows(2) {
        assert!(w[0].theta <= w[1].theta);
    }
    for h in &hits {
        assert!(h.theta >= -3_141_593 && h.theta <= 3_141_593);
        assert_eq!(h.distance, 20_000);
        assert_eq!(h.max_distance, 20_000);
        assert_eq!(h.hit, EntityType::Empty);
        assert_eq!(h.hit_confidence.as_tuple(), (850, 150, 200, 200));
        assert_eq!(h.free_confidence.as_tuple(), (900, 10, 45, 45));
    }
}

#[test]
fn hits_keep_their_class_and_distance() {
    let table = ConfidenceTable::standard();
    let p = ProbeReading { theta: 100, max_distance: 20_000, hit: Some(ProbeHit { kind: EntityType::Wall, distance: 4_200 }) };
    let h = resolve_probe(&p, &table);
    assert_eq!(h.hit, EntityType::Wall);
    assert_eq!(h.distance, 4_200);
    assert_eq!(h.hit_confidence, SensorConfidence::new(50, 900, 50, 50));
    let unknown = ProbeReading { theta: 0, max_distance: 1, hit: Some(ProbeHit { kind: EntityType::Unknown, distance: 0 }) };
    assert_eq!(resolve_probe(&unknown, &table).hit_confidence.as_tuple(), (250, 250, 250, 250));
}

#[test]
fn hits_are_ordered_by_angle() {
    let table = ConfidenceTable::standard();
    let probes = vec![
        ProbeReading { theta: 5, max_distance: 10, hit: None },
        ProbeReading { theta: -7, max_distance: 10, hit: Some(ProbeHit { kind: EntityType::Flag, distance: 3 }) },
        ProbeReading { theta: 5, max_distance: 10, hit: Some(ProbeHit { kind: EntityType::CapturePoint, distance: 4 }) },
        ProbeReading { theta: 0, max_distance: 10, hit: None },
    ];
    let hits = collect_hits(&probes, &table);
    let thetas: Vec<i32> = hits.iter().map(|h| h.theta).collect();
    assert_eq!(thetas, vec![-7, 0, 5, 5]);
    assert_eq!(hits[0].hit, EntityType::Flag);
    assert_eq!(hits[2].hit, EntityType::Empty);
    assert_eq!(hits[3].hit, EntityType::CapturePoint);
}

#[test]
fn range_noise_stays_within_reach() {
    let table = ConfidenceTable::standard();
    let h = resolve_probe(&ProbeReading { theta: 0, max_distance: 20_000, hit: Some(ProbeHit { kind: EntityType::Wall, distance: 5_000 }) }, &table);
    assert_eq!(noisy_hit(&h, 250).distance, 5_250);
    assert_eq!(noisy_hit(&h, -6_000).distance, 0);
    assert_eq!(noisy_hit(&h, 16_000).distance, 20_000);
    assert_eq!(noisy_hit(&h, 0), h);
}

#[test]
fn noisy_state_comes_from_the_true_one() {
    let table = ConfidenceTable::standard();
    let truth = AgentState {
        id: 3,
        position: (1_000, -2_000),
        position_stddev: 100,
        raycasts: collect_hits(&ring(4, 20_000), &table),
        flag: Some(9),
        max_speed: 10_000,
    };
    let noisy = noisy_agent_state(&truth, (50, -75), &vec![100, -100, 30_000, 0]);
    assert_eq!(noisy.position, (1_050, -2_075));
    assert_eq!(noisy.id, 3);
    assert_eq!(noisy.flag, Some(9));
    assert_eq!(noisy.position_stddev, 100);
    let d: Vec<u32> = noisy.raycasts.iter().map(|h| h.distance).collect();
    assert_eq!(d, vec![20_000, 19_900, 20_000, 20_000]);
    assert_eq!(truth.raycasts[1].distance, 20_000);
}
