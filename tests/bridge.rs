use maze_arena::bridge::{
    action_to_apply, freshest, latest_of, retrieve_latest, send_update, try_retrieve_latest, worker_step, Action, LinkState,
    PolicyTimer, SendReport, WorkerEvent, WorkerPhase,
};

#[test]
fn full_queue_skips_the_update() {
    let capacity = 60;
    let (tx, rx) = crossbeam_channel::bounded::<u32>(capacity);
    let mut link = LinkState::Open;
    for i in 0..capacity as u32 {
        assert_eq!(send_update(&mut link, &tx, i), SendReport::Delivered);
    }
    assert_eq!(send_update(&mut link, &tx, 99), SendReport::Skipped);
    assert_eq!(link, LinkState::Open);
    assert_eq!(rx.len(), capacity);
}

#[test]
fn gone_consumer_closes_the_link_for_good() {
    let (tx, rx) = crossbeam_channel::bounded::<u32>(4);
    let mut link = LinkState::Open;
    drop(rx);
    assert_eq!(send_update(&mut link, &tx, 1), SendReport::Stopped);
    assert_eq!(link, LinkState::Closed);
    assert_eq!(send_update(&mut link, &tx, 2), SendReport::Stopped);
}

#[test]
fn latest_wins() {
    assert_eq!(latest_of(vec![1, 2, 3]), Some(3));
    assert_eq!(latest_of(Vec::<u8>::new()), None);
    let (tx, rx) = crossbeam_channel::bounded::<u32>(8);
    for i in 1..=3 {
        tx.try_send(i).unwrap();
    }
    assert_eq!(retrieve_latest(&rx, Some(10)), Some(3));
    assert_eq!(try_retrieve_latest(&rx), None);
    assert_eq!(retrieve_latest(&rx, Some(5)), None);
    tx.try_send(7).unwrap();
    assert_eq!(try_retrieve_latest(&rx), Some(7));
    drop(tx);
    assert_eq!(retrieve_latest(&rx, None), None);
}

#[test]
fn worker_life() {
    let mut p = worker_step(WorkerPhase::Idle, WorkerEvent::Started);
    assert_eq!(p, WorkerPhase::AwaitingState);
    p = worker_step(p, WorkerEvent::Received);
    assert_eq!(p, WorkerPhase::Computing);
    p = worker_step(p, WorkerEvent::Decided);
    assert_eq!(p, WorkerPhase::Returned);
    p = worker_step(p, WorkerEvent::OutboundFull);
    assert_eq!(p, WorkerPhase::AwaitingState);
    assert_eq!(worker_step(p, WorkerEvent::InboundClosed), WorkerPhase::Terminated);
    assert_eq!(worker_step(WorkerPhase::Computing, WorkerEvent::DecisionFailed), WorkerPhase::Failed);
    assert_eq!(worker_step(WorkerPhase::Failed, WorkerEvent::Received), WorkerPhase::Terminated);
    assert_eq!(worker_step(WorkerPhase::Returned, WorkerEvent::OutboundClosed), WorkerPhase::Terminated);
    assert_eq!(worker_step(WorkerPhase::Terminated, WorkerEvent::Received), WorkerPhase::Terminated);
}

#[test]
fn timer_rate_is_clamped() {
    assert_eq!(PolicyTimer::from_rate(60_000).interval_us, 16_666);
    assert_eq!(PolicyTimer::from_rate(0).interval_us, 1_000_000);
    assert_eq!(PolicyTimer::from_rate(1_000_000).interval_us, 4_166);
}

#[test]
fn timer_fires_once_per_interval() {
    let mut t = PolicyTimer::from_rate(10_000);
    assert!(!t.tick(60_000));
    assert!(!t.tick(30_000));
    assert!(t.tick(20_000));
    assert_eq!(t.elapsed_us, 10_000);
    assert!(t.tick(250_000));
    assert_eq!(t.elapsed_us, 60_000);
}

#[test]
fn only_the_last_action_is_applied() {
    let agents = vec![4, 7];
    let drained = vec![Action::PickupFlag { id: 4 }, Action::Move { id: 7, vx: 1, vz: -1 }];
    assert_eq!(action_to_apply(drained, &agents), Some(Action::Move { id: 7, vx: 1, vz: -1 }));
    assert_eq!(action_to_apply(vec![Action::DropFlag { id: 5 }], &agents), None);
    assert_eq!(action_to_apply(vec![], &agents), None);
    assert_eq!(Action::DropFlag { id: 5 }.agent_id(), 5);
}

#[test]
fn freshest_item_wins() {
    assert_eq!(freshest(None, vec![1, 2]), None);
    assert_eq!(freshest(Some(1), vec![]), Some(1));
    assert_eq!(freshest(Some(1), vec![2, 3]), Some(3));
}

#[test]
fn closed_empty_channel_gives_none_without_waiting() {
    let (tx, rx) = crossbeam_channel::bounded::<u32>(4);
    tx.try_send(5).unwrap();
    drop(tx);
    assert_eq!(retrieve_latest(&rx, Some(60_000)), Some(5));
    assert_eq!(retrieve_latest(&rx, Some(60_000)), None);
    assert_eq!(retrieve_latest(&rx, None), None);
}
