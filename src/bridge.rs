//! The decisions of the bridge between the simulation and a decision process:
//! non-blocking sends with explicit backpressure, latest-wins draining, the
//! rate at which snapshots go out, and the life of a worker.
use vstd::prelude::*;
use crossbeam_channel::{Receiver, Sender, TrySendError};

verus! {

#[verifier::external_type_specification]
#[verifier::external_body]
#[verifier::reject_recursive_types(T)]
pub struct ExSender<T>(Sender<T>);

#[verifier::external_type_specification]
#[verifier::external_body]
#[verifier::reject_recursive_types(T)]
pub struct ExReceiver<T>(Receiver<T>);

/// How a non-blocking send went.
#[derive(Clone, Copy, Debug, PartialEq, Eq, Structural)]
pub enum SendOutcome {
    Sent,
    Full,
    Disconnected,
}

/// Whether a consumer is still sent to.
#[derive(Clone, Copy, Debug, PartialEq, Eq, Structural)]
pub enum LinkState {
    Open,
    Closed,
}

/// What became of one update: handed over, skipped because the queue was full,
/// or not sent because the consumer is gone.
#[derive(Clone, Copy, Debug, PartialEq, Eq, Structural)]
pub enum SendReport {
    Delivered,
    Skipped,
    Stopped,
}

/// Relies on crossbeam_channel's `Sender::try_send`: it returns at once,
/// telling delivery, a full queue and a disconnected receiver apart.
#[verifier::external_body]
fn try_send_item<T>(tx: &Sender<T>, item: T) -> (r: SendOutcome) {
    match tx.try_send(item) {
        Ok(()) => SendOutcome::Sent,
        Err(TrySendError::Full(_)) => SendOutcome::Full,
        Err(TrySendError::Disconnected(_)) => SendOutcome::Disconnected,
    }
}

/// Relies on crossbeam_channel's `Receiver::try_recv`: the next item if one
/// is waiting, without blocking.
#[verifier::external_body]
fn try_take<T>(rx: &Receiver<T>) -> (r: Option<T>) {
    rx.try_recv().ok()
}

/// Relies on crossbeam_channel's `Receiver::len`: the number of items waiting.
#[verifier::external_body]
fn pending<T>(rx: &Receiver<T>) -> (r: usize) {
    rx.len()
}

/// Relies on crossbeam_channel's `Receiver::recv_timeout`: the next item, or
/// none once `ms` milliseconds pass or every sender is gone.
#[verifier::external_body]
fn wait_at_most<T>(rx: &Receiver<T>, ms: u64) -> (r: Option<T>) {
    rx.recv_timeout(std::time::Duration::from_millis(ms)).ok()
}

/// Relies on crossbeam_channel's `Receiver::recv`: the next item, or none once
/// every sender is gone.
#[verifier::external_body]
fn wait_for<T>(rx: &Receiver<T>) -> (r: Option<T>) {
    rx.recv().ok()
}

/// The producer's rule for one send on a link: a full queue skips the update
/// and keeps the link, a disconnected consumer closes it for good.
pub open spec fn send_decision(outcome: SendOutcome) -> (LinkState, SendReport) {
    match outcome {
        SendOutcome::Sent => (LinkState::Open, SendReport::Delivered),
        SendOutcome::Full => (LinkState::Open, SendReport::Skipped),
        SendOutcome::Disconnected => (LinkState::Closed, SendReport::Stopped),
    }
}

/// The producer's rule for one send on a link.
pub fn after_send(outcome: SendOutcome) -> (r: (LinkState, SendReport))
    ensures
        r == send_decision(outcome),
{
    match outcome {
        SendOutcome::Sent => (LinkState::Open, SendReport::Delivered),
        SendOutcome::Full => (LinkState::Open, SendReport::Skipped),
        SendOutcome::Disconnected => (LinkState::Closed, SendReport::Stopped),
    }
}

/// Offers `item` on `tx` without blocking, unless the link is closed, and
/// updates the link by the outcome.
pub fn send_update<T>(link: &mut LinkState, tx: &Sender<T>, item: T) -> (r: SendReport)
    ensures
        *old(link) == LinkState::Closed ==> r == SendReport::Stopped && *final(link) == LinkState::Closed,
        *old(link) == LinkState::Open ==> exists|o: SendOutcome| send_decision(o) == (*final(link), r),
{
    match *link {
        LinkState::Closed => SendReport::Stopped,
        LinkState::Open => {
            let outcome = try_send_item(tx, item);
            let (next, report) = after_send(outcome);
            *link = next;
            report
        },
    }
}

/// A full queue is reported as a skipped update, never as a failure, and the
/// consumer stays connected.
pub proof fn lemma_full_queue_skips()
    ensures
        send_decision(SendOutcome::Full) == (LinkState::Open, SendReport::Skipped),
        forall|o: SendOutcome| #[trigger] send_decision(o).1 == SendReport::Stopped <==> o == SendOutcome::Disconnected,
{
}

/// The last of `items`, the others dropped.
pub fn latest_of<T>(items: Vec<T>) -> (r: Option<T>)
    ensures
        items@.len() == 0 ==> r is None,
        items@.len() > 0 ==> r == Some(items@.last()),
{
    let mut items = items;
    items.pop()
}

/// The last of `items`, or none when there are none.
pub open spec fn last_of<T>(items: Seq<T>) -> Option<T> {
    if items.len() == 0 {
        None
    } else {
        Some(items.last())
    }
}

/// What a retrieval returns from the item its wait produced, if any, and the
/// items drained after it: nothing when the wait produced nothing (a timeout
/// or a closed channel), else the last item drained, or the waited-for item
/// when nothing more was waiting.
pub open spec fn freshest_of<T>(first: Option<T>, drained: Seq<T>) -> Option<T> {
    match first {
        None => None,
        Some(item) => if drained.len() == 0 {
            Some(item)
        } else {
            Some(drained.last())
        },
    }
}

/// The freshest of the waited-for item and the items drained after it.
pub fn freshest<T>(first: Option<T>, drained: Vec<T>) -> (r: Option<T>)
    ensures
        r == freshest_of(first, drained@),
{
    match first {
        None => None,
        Some(item) => {
            let last = latest_of(drained);
            match last {
                Some(later) => Some(later),
                None => Some(item),
            }
        },
    }
}

/// Takes, without blocking, every item that was waiting on `rx` when called,
/// in the order they were sent.
pub fn drain_pending<T>(rx: &Receiver<T>) -> (r: Vec<T>) {
    let n = pending(rx);
    let mut taken: Vec<T> = Vec::new();
    let mut i: usize = 0;
    while i < n
        decreases n - i,
    {
        match try_take(rx) {
            Some(item) => taken.push(item),
            None => {},
        }
        i = i + 1;
    }
    taken
}

/// Takes every item waiting on `rx` and returns the last, without blocking.
pub fn drain_latest<T>(rx: &Receiver<T>) -> (r: Option<T>)
    ensures
        exists|drained: Seq<T>| r == #[trigger] last_of(drained),
{
    let drained = drain_pending(rx);
    let ghost d = drained@;
    let r = latest_of(drained);
    proof {
        assert(r == last_of(d));
    }
    r
}

/// Waits for an item on `rx`, up to `timeout_ms` milliseconds if given, then
/// drains what else is waiting and returns the freshest; none on timeout or
/// once every sender is gone and nothing is left.
pub fn retrieve_latest<T>(rx: &Receiver<T>, timeout_ms: Option<u64>) -> (r: Option<T>)
    ensures
        exists|first: Option<T>, drained: Seq<T>| r == #[trigger] freshest_of(first, drained),
{
    let first = match timeout_ms {
        Some(ms) => wait_at_most(rx, ms),
        None => wait_for(rx),
    };
    let drained = match first {
        None => Vec::new(),
        Some(_) => drain_pending(rx),
    };
    let ghost (f, d) = (first, drained@);
    let r = freshest(first, drained);
    proof {
        assert(r == freshest_of(f, d));
    }
    r
}

/// Returns the freshest item waiting on `rx`, if any, without blocking.
pub fn try_retrieve_latest<T>(rx: &Receiver<T>) -> (r: Option<T>)
    ensures
        exists|drained: Seq<T>| r == #[trigger] last_of(drained),
{
    drain_latest(rx)
}

/// Where a decision worker stands.
#[derive(Clone, Copy, Debug, PartialEq, Eq, Structural)]
pub enum WorkerPhase {
    Idle,
    AwaitingState,
    Computing,
    Returned,
    Failed,
    Terminated,
}

/// What a decision worker observes.
#[derive(Clone, Copy, Debug, PartialEq, Eq, Structural)]
pub enum WorkerEvent {
    Started,
    Received,
    InboundClosed,
    Decided,
    DecisionFailed,
    Delivered,
    OutboundFull,
    OutboundClosed,
}

/// The phase a worker moves to on an event: it waits for a state, computes a
/// decision, hands the result out and waits again; it ends when its inbound
/// queue is closed, when the decision fails, or when the outbound receiver is
/// gone. A result that finds the outbound queue full is dropped. An event that
/// does not belong to the phase leaves it as it is.
pub open spec fn worker_next(phase: WorkerPhase, event: WorkerEvent) -> WorkerPhase {
    match (phase, event) {
        (WorkerPhase::Idle, WorkerEvent::Started) => WorkerPhase::AwaitingState,
        (WorkerPhase::AwaitingState, WorkerEvent::Received) => WorkerPhase::Computing,
        (WorkerPhase::AwaitingState, WorkerEvent::InboundClosed) => WorkerPhase::Terminated,
        (WorkerPhase::Computing, WorkerEvent::Decided) => WorkerPhase::Returned,
        (WorkerPhase::Computing, WorkerEvent::DecisionFailed) => WorkerPhase::Failed,
        (WorkerPhase::Returned, WorkerEvent::Delivered) => WorkerPhase::AwaitingState,
        (WorkerPhase::Returned, WorkerEvent::OutboundFull) => WorkerPhase::AwaitingState,
        (WorkerPhase::Returned, WorkerEvent::OutboundClosed) => WorkerPhase::Terminated,
        (WorkerPhase::Failed, _) => WorkerPhase::Terminated,
        _ => phase,
    }
}

/// The phase a worker moves to on an event.
pub fn worker_step(phase: WorkerPhase, event: WorkerEvent) -> (r: WorkerPhase)
    ensures
        r == worker_next(phase, event),
{
    match (phase, event) {
        (WorkerPhase::Idle, WorkerEvent::Started) => WorkerPhase::AwaitingState,
        (WorkerPhase::AwaitingState, WorkerEvent::Received) => WorkerPhase::Computing,
        (WorkerPhase::AwaitingState, WorkerEvent::InboundClosed) => WorkerPhase::Terminated,
        (WorkerPhase::Computing, WorkerEvent::Decided) => WorkerPhase::Returned,
        (WorkerPhase::Computing, WorkerEvent::DecisionFailed) => WorkerPhase::Failed,
        (WorkerPhase::Returned, WorkerEvent::Delivered) => WorkerPhase::AwaitingState,
        (WorkerPhase::Returned, WorkerEvent::OutboundFull) => WorkerPhase::AwaitingState,
        (WorkerPhase::Returned, WorkerEvent::OutboundClosed) => WorkerPhase::Terminated,
        (WorkerPhase::Failed, _) => WorkerPhase::Terminated,
        _ => phase,
    }
}

/// A worker waiting on its inbound queue ends once that queue is closed, and
/// a terminated worker stays terminated whatever it observes.
pub proof fn lemma_closed_inbound_ends_worker(event: WorkerEvent)
    ensures
        worker_next(WorkerPhase::AwaitingState, WorkerEvent::InboundClosed) == WorkerPhase::Terminated,
        worker_next(WorkerPhase::Terminated, event) == WorkerPhase::Terminated,
{
}

/// Slowest and fastest decision rates, in thousandths of a hertz.
pub const MIN_RATE_MHZ: u32 = 1000;
pub const MAX_RATE_MHZ: u32 = 240000;

/// A repeating timer in microseconds.
#[derive(Clone, Copy, Debug, PartialEq, Eq, Structural)]
pub struct PolicyTimer {
    pub interval_us: u64,
    pub elapsed_us: u64,
}

/// The rate limited to `[MIN_RATE_MHZ, MAX_RATE_MHZ]`.
pub open spec fn clamped_rate(mhz: u32) -> int {
    if mhz < MIN_RATE_MHZ {
        MIN_RATE_MHZ as int
    } else if mhz > MAX_RATE_MHZ {
        MAX_RATE_MHZ as int
    } else {
        mhz as int
    }
}

impl PolicyTimer {
    /// A timer that fires at `rate_mhz` thousandths of a hertz, the rate first
    /// limited to 1 to 240 hertz.
    pub fn from_rate(rate_mhz: u32) -> (r: PolicyTimer)
        ensures
            r.interval_us == 1_000_000_000int / clamped_rate(rate_mhz),
            r.elapsed_us == 0,
            r.interval_us > 0,
    {
        let rate = if rate_mhz < MIN_RATE_MHZ {
            MIN_RATE_MHZ
        } else if rate_mhz > MAX_RATE_MHZ {
            MAX_RATE_MHZ
        } else {
            rate_mhz
        };
        proof {
            vstd::arithmetic::div_mod::lemma_div_is_ordered_by_denominator(1_000_000_000, rate as int, MAX_RATE_MHZ as int);
        }
        PolicyTimer { interval_us: 1_000_000_000 / (rate as u64), elapsed_us: 0 }
    }

    /// Advances the timer by `dt_us`; true when it completed at least one
    /// interval, the time past the last completion kept.
    pub fn tick(&mut self, dt_us: u64) -> (r: bool)
        requires
            old(self).interval_us > 0,
            old(self).elapsed_us < old(self).interval_us,
        ensures
            final(self).interval_us == old(self).interval_us,
            r == (old(self).elapsed_us + dt_us >= old(self).interval_us),
            final(self).elapsed_us == (old(self).elapsed_us + dt_us) % (old(self).interval_us as int),
            final(self).elapsed_us < final(self).interval_us,
    {
        let total: u128 = self.elapsed_us as u128 + dt_us as u128;
        let fired = total >= self.interval_us as u128;
        let rest = total % (self.interval_us as u128);
        self.elapsed_us = rest as u64;
        fired
    }
}

/// What the decision process asks of an agent; velocities in thousandths of
/// a world unit per second.
#[derive(Clone, Copy, Debug, PartialEq, Eq, Structural)]
pub enum Action {
    Move { id: u32, vx: i32, vz: i32 },
    PickupFlag { id: u32 },
    DropFlag { id: u32 },
}

impl Action {
    pub open spec fn spec_agent(self) -> u32 {
        match self {
            Action::Move { id, .. } => id,
            Action::PickupFlag { id } => id,
            Action::DropFlag { id } => id,
        }
    }

    /// The agent the action is for.
    pub fn agent_id(&self) -> (r: u32)
        ensures
            r == self.spec_agent(),
    {
        match self {
            Action::Move { id, .. } => *id,
            Action::PickupFlag { id } => *id,
            Action::DropFlag { id } => *id,
        }
    }
}

/// The action to apply this tick: the last of those drained, if it is for an
/// agent that exists.
pub fn action_to_apply(drained: Vec<Action>, agents: &Vec<u32>) -> (r: Option<Action>)
    ensures
        drained@.len() == 0 ==> r is None,
        drained@.len() > 0 ==> (r is Some <==> agents@.contains(drained@.last().spec_agent())),
        r is Some ==> r == Some(drained@.last()),
{
    let ghost all = drained@;
    match latest_of(drained) {
        None => None,
        Some(a) => {
            let id = a.agent_id();
            let mut i: usize = 0;
            while i < agents.len()
                invariant
                    i <= agents@.len(),
                    all == drained@,
                    all.len() > 0,
                    a == all.last(),
                    id == a.spec_agent(),
                    forall|k: int| 0 <= k < i ==> agents@[k] != id,
                decreases agents@.len() - i,
            {
                if agents[i] == id {
                    proof {
                        assert(agents@[i as int] == id);
                    }
                    return Some(a);
                }
                i = i + 1;
            }
            None
        },
    }
}

} // verus!
