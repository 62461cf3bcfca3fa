use finny::builder::FsmBuilder;
use finny::fsm::Fsm;
use finny::semantics::{DispatchOutcome, Notification};
use finny::table::{BuiltFsm, Candidate, Effect, Event, FsmError, Guard, Trigger};

const COUNT: usize = 0;
const START: u64 = 1;
const STOP: u64 = 2;
const PING: u64 = 3;
const PONG: u64 = 4;

fn signal(kind: u64) -> Event {
    Event::Signal { kind, value: 0 }
}

fn go(guard: Guard, action: Effect, target: usize) -> Vec<Candidate> {
    vec![Candidate { guard, action, target }]
}

/// Idle --Start/count+=1--> Running, one region.
fn idle_running() -> (BuiltFsm, usize, usize) {
    let mut b = FsmBuilder::new(8, 16);
    let r = b.region(0);
    let idle = b.state(r);
    let running = b.state(r);
    b.transition(idle, Trigger::Signal(START), go(Guard::Always, Effect::Increment(COUNT), running));
    b.initial_state(idle).unwrap();
    (b.build().unwrap(), idle, running)
}

#[test]
fn idle_running_scenario() {
    let (t, idle, running) = idle_running();
    let mut fsm = Fsm::new(t);
    fsm.start(vec![0]).unwrap();
    assert_eq!(fsm.current_state(0), Some(idle));
    assert_eq!(fsm.var(COUNT), Some(0));
    let r = fsm.dispatch(signal(START));
    assert_eq!(r, Ok(DispatchOutcome { handled: 1 }));
    assert_eq!(fsm.current_state(0), Some(running));
    assert_eq!(fsm.var(COUNT), Some(1));
    let r = fsm.dispatch(signal(START));
    assert!(r.is_ok());
    assert_eq!(fsm.current_state(0), Some(running));
    assert_eq!(fsm.var(COUNT), Some(1));
    assert_eq!(fsm.notifications().last(), Some(&Notification::NoTransition { region: 0 }));
}

#[test]
fn start_twice_and_dispatch_before_start() {
    let (t, idle, _) = idle_running();
    let mut fsm = Fsm::new(t);
    assert_eq!(fsm.dispatch(signal(START)), Err(FsmError::NotStarted));
    assert_eq!(fsm.process_queue(), Err(FsmError::NotStarted));
    assert_eq!(fsm.expire_timers(5), Err(FsmError::NotStarted));
    assert!(!fsm.is_started());
    fsm.start(vec![0]).unwrap();
    assert!(fsm.is_started());
    assert_eq!(fsm.start(vec![0]), Err(FsmError::AlreadyStarted));
    assert_eq!(fsm.current_state(0), Some(idle));
    assert_eq!(fsm.current_state(7), None);
}

#[test]
fn timer_yields_one_timeout() {
    let mut b = FsmBuilder::new(8, 16);
    let r = b.region(0);
    let waiting = b.state(r);
    let done = b.state(r);
    b.timer(waiting, 100).unwrap();
    b.transition(waiting, Trigger::Timeout, go(Guard::Always, Effect::Nothing, done));
    b.initial_state(waiting).unwrap();
    let mut fsm = Fsm::new(b.build().unwrap());
    fsm.start(vec![]).unwrap();
    assert!(fsm.timer_armed(waiting));
    fsm.expire_timers(50).unwrap();
    assert!(fsm.pending_events().is_empty());
    fsm.expire_timers(150).unwrap();
    assert_eq!(fsm.pending_events(), &vec![Event::Timeout { state: waiting }]);
    fsm.expire_timers(10_000).unwrap();
    assert_eq!(fsm.pending_events().len(), 1);
    assert_eq!(fsm.process_queue(), Ok(DispatchOutcome { handled: 1 }));
    assert_eq!(fsm.current_state(r), Some(done));
    assert!(fsm.pending_events().is_empty());
}

#[test]
fn exit_cancels_the_timer() {
    let mut b = FsmBuilder::new(8, 16);
    let r = b.region(0);
    let waiting = b.state(r);
    let other = b.state(r);
    b.timer(waiting, 100).unwrap();
    b.transition(waiting, Trigger::Signal(STOP), go(Guard::Always, Effect::Nothing, other));
    b.initial_state(waiting).unwrap();
    let mut fsm = Fsm::new(b.build().unwrap());
    fsm.start(vec![]).unwrap();
    fsm.expire_timers(40).unwrap();
    fsm.dispatch(signal(STOP)).unwrap();
    assert!(!fsm.timer_armed(waiting));
    assert!(fsm.notifications().contains(&Notification::TimerDisarmed(waiting)));
    fsm.expire_timers(500).unwrap();
    assert!(fsm.pending_events().is_empty());
}

#[test]
fn timer_deadline_counts_from_entry() {
    let mut b = FsmBuilder::new(8, 16);
    let r = b.region(0);
    let a = b.state(r);
    let waiting = b.state(r);
    b.timer(waiting, 100).unwrap();
    b.transition(a, Trigger::Signal(START), go(Guard::Always, Effect::Nothing, waiting));
    b.initial_state(a).unwrap();
    let mut fsm = Fsm::new(b.build().unwrap());
    fsm.start(vec![]).unwrap();
    fsm.expire_timers(1_000).unwrap();
    fsm.dispatch(signal(START)).unwrap();
    fsm.expire_timers(1_099).unwrap();
    assert!(fsm.pending_events().is_empty());
    fsm.expire_timers(1_100).unwrap();
    assert_eq!(fsm.pending_events(), &vec![Event::Timeout { state: waiting }]);
}

#[test]
fn regions_are_orthogonal() {
    let mut b = FsmBuilder::new(8, 16);
    let ra = b.region(0);
    let rb = b.region(0);
    let a1 = b.state(ra);
    let a2 = b.state(ra);
    let b1 = b.state(rb);
    let b2 = b.state(rb);
    b.transition(a1, Trigger::Signal(START), go(Guard::Always, Effect::Nothing, a2));
    b.transition(b1, Trigger::Signal(STOP), go(Guard::Always, Effect::Nothing, b2));
    b.initial_states(&[a1, b1]).unwrap();
    let mut fsm = Fsm::new(b.build().unwrap());
    fsm.start(vec![]).unwrap();
    fsm.dispatch(signal(START)).unwrap();
    assert_eq!(fsm.current_state(ra), Some(a2));
    assert_eq!(fsm.current_state(rb), Some(b1));
    assert!(fsm.notifications().contains(&Notification::NoTransition { region: rb }));
    fsm.dispatch(signal(STOP)).unwrap();
    assert_eq!(fsm.current_state(ra), Some(a2));
    assert_eq!(fsm.current_state(rb), Some(b2));
}

#[test]
fn posted_events_run_after_the_current_cascade() {
    // Region A posts PING and region B posts PONG while handling START:
    // both are handled after START's cascade, in the order they were posted.
    let mut b = FsmBuilder::new(8, 16);
    let ra = b.region(0);
    let rb = b.region(0);
    let a1 = b.state(ra);
    let a2 = b.state(ra);
    let a3 = b.state(ra);
    let b1 = b.state(rb);
    let b2 = b.state(rb);
    b.transition(a1, Trigger::Signal(START), go(Guard::Always, Effect::Post(signal(PING)), a2));
    b.transition(a2, Trigger::Signal(PING), go(Guard::Always, Effect::Increment(COUNT), a3));
    b.transition(b1, Trigger::Signal(START), go(Guard::Always, Effect::Post(signal(PONG)), b2));
    b.on_entry(b2, Effect::Assign { var: 1, value: 7 }).unwrap();
    b.initial_states(&[a1, b1]).unwrap();
    let mut fsm = Fsm::new(b.build().unwrap());
    fsm.start(vec![0, 0]).unwrap();
    let r = fsm.dispatch(signal(START));
    assert_eq!(r, Ok(DispatchOutcome { handled: 3 }));
    assert_eq!(fsm.current_state(ra), Some(a3));
    assert_eq!(fsm.current_state(rb), Some(b2));
    assert_eq!(fsm.var(COUNT), Some(1));
    assert_eq!(fsm.var(1), Some(7));
    let log = fsm.notifications();
    let entered_b2 = log.iter().position(|n| *n == Notification::StateEntered(b2)).unwrap();
    let entered_a3 = log.iter().position(|n| *n == Notification::StateEntered(a3)).unwrap();
    let push_ping = log.iter().position(|n| *n == Notification::QueuePush(signal(PING))).unwrap();
    let push_pong = log.iter().position(|n| *n == Notification::QueuePush(signal(PONG))).unwrap();
    assert!(push_ping < push_pong);
    assert!(entered_b2 < entered_a3);
}

/// A root region with `outer` (idle) and `composite`, which hosts a machine
/// with one region: `leaf` -> `end` (terminal); its completion leads to `after`.
struct Nested {
    table: BuiltFsm,
    outer: usize,
    composite: usize,
    leaf: usize,
    end: usize,
    after: usize,
}

fn nested() -> Nested {
    let mut b = FsmBuilder::new(8, 16);
    let r = b.region(0);
    let outer = b.state(r);
    let (composite, m) = b.sub_machine(r);
    let after = b.state(r);
    let cr = b.region(m);
    let leaf = b.state(cr);
    let end = b.state(cr);
    b.terminal(end).unwrap();
    b.transition(outer, Trigger::Signal(START), go(Guard::Always, Effect::Nothing, composite));
    b.transition(composite, Trigger::Signal(STOP), go(Guard::Always, Effect::Nothing, outer));
    b.transition(leaf, Trigger::Signal(PING), go(Guard::Always, Effect::Nothing, end));
    b.transition(composite, Trigger::Completed, go(Guard::Always, Effect::Nothing, after));
    b.initial_states(&[outer, leaf]).unwrap();
    Nested { table: b.build().unwrap(), outer, composite, leaf, end, after }
}

#[test]
fn composite_entry_and_exit_order() {
    let n = nested();
    let mut fsm = Fsm::new(n.table);
    fsm.start(vec![]).unwrap();
    assert_eq!(fsm.current_state(1), None);
    fsm.dispatch(signal(START)).unwrap();
    assert_eq!(fsm.current_state(0), Some(n.composite));
    assert_eq!(fsm.current_state(1), Some(n.leaf));
    let log = fsm.notifications().clone();
    let p_comp = log.iter().position(|x| *x == Notification::StateEntered(n.composite)).unwrap();
    let p_leaf = log.iter().position(|x| *x == Notification::StateEntered(n.leaf)).unwrap();
    assert!(p_comp < p_leaf);
    fsm.dispatch(signal(STOP)).unwrap();
    assert_eq!(fsm.current_state(0), Some(n.outer));
    assert_eq!(fsm.current_state(1), None);
    let log = fsm.notifications();
    let q_leaf = log.iter().position(|x| *x == Notification::StateExited(n.leaf)).unwrap();
    let q_comp = log.iter().position(|x| *x == Notification::StateExited(n.composite)).unwrap();
    assert!(q_leaf < q_comp);
    assert!(log.contains(&Notification::StateEntered(n.outer)));
}

#[test]
fn submachine_completion_leaves_the_host() {
    let n = nested();
    let mut fsm = Fsm::new(n.table);
    fsm.start(vec![]).unwrap();
    fsm.dispatch(signal(START)).unwrap();
    fsm.dispatch(signal(PING)).unwrap();
    assert_eq!(fsm.current_state(0), Some(n.after));
    assert_eq!(fsm.current_state(1), None);
    assert!(fsm.notifications().contains(&Notification::StateEntered(n.end)));
    assert!(fsm.notifications().contains(&Notification::StateExited(n.end)));
}

#[test]
fn replay_gives_the_same_stream() {
    let events = [signal(START), signal(PING), signal(STOP), signal(START), signal(STOP)];
    let mut a = Fsm::new(nested().table);
    let mut b = Fsm::new(nested().table);
    a.start(vec![3]).unwrap();
    b.start(vec![3]).unwrap();
    for e in events.iter() {
        assert_eq!(a.dispatch(*e), b.dispatch(*e));
    }
    assert_eq!(a.notifications(), b.notifications());
    assert_eq!(a.current_state(0), b.current_state(0));
    assert_eq!(a.current_state(1), b.current_state(1));
}

#[test]
fn first_true_guard_wins() {
    let mut b = FsmBuilder::new(8, 16);
    let r = b.region(0);
    let s0 = b.state(r);
    let low = b.state(r);
    let high = b.state(r);
    let cands = vec![
        Candidate { guard: Guard::VarAtLeast { var: 0, bound: 10 }, action: Effect::Nothing, target: high },
        Candidate { guard: Guard::VarBelow { var: 0, bound: 10 }, action: Effect::Nothing, target: low },
        Candidate { guard: Guard::Always, action: Effect::Nothing, target: high },
    ];
    b.transition(s0, Trigger::Signal(START), cands);
    b.initial_state(s0).unwrap();
    let t = b.build().unwrap();
    let mut fsm = Fsm::new(t.clone());
    fsm.start(vec![3]).unwrap();
    fsm.dispatch(signal(START)).unwrap();
    assert_eq!(fsm.current_state(r), Some(low));
    assert!(fsm.notifications().contains(&Notification::GuardEvaluated { transition: 0, candidate: 0, result: false }));
    assert!(fsm.notifications().contains(&Notification::GuardEvaluated { transition: 0, candidate: 1, result: true }));
    assert!(!fsm.notifications().iter().any(|n| *n == Notification::GuardEvaluated { transition: 0, candidate: 2, result: true }));
    let mut fsm = Fsm::new(t);
    fsm.start(vec![12]).unwrap();
    fsm.dispatch(signal(START)).unwrap();
    assert_eq!(fsm.current_state(r), Some(high));
}

#[test]
fn rejected_guards_differ_from_no_transition() {
    let mut b = FsmBuilder::new(8, 16);
    let r = b.region(0);
    let s0 = b.state(r);
    let s1 = b.state(r);
    b.transition(s0, Trigger::Signal(START), go(Guard::ValueIs(5), Effect::Nothing, s1));
    b.initial_state(s0).unwrap();
    let mut fsm = Fsm::new(b.build().unwrap());
    fsm.start(vec![]).unwrap();
    fsm.dispatch(Event::Signal { kind: START, value: 4 }).unwrap();
    assert_eq!(fsm.current_state(r), Some(s0));
    assert_eq!(fsm.notifications().last(), Some(&Notification::GuardsRejected { region: r }));
    fsm.dispatch(signal(STOP)).unwrap();
    assert_eq!(fsm.notifications().last(), Some(&Notification::NoTransition { region: r }));
    fsm.dispatch(Event::Signal { kind: START, value: 5 }).unwrap();
    assert_eq!(fsm.current_state(r), Some(s1));
}

#[test]
fn in_state_guard_reads_other_regions() {
    let mut b = FsmBuilder::new(8, 16);
    let ra = b.region(0);
    let rb = b.region(0);
    let a0 = b.state(ra);
    let a1 = b.state(ra);
    let b0 = b.state(rb);
    let b1 = b.state(rb);
    b.transition(a0, Trigger::Signal(START), go(Guard::InState(b1), Effect::Nothing, a1));
    b.transition(b0, Trigger::Signal(STOP), go(Guard::Always, Effect::Nothing, b1));
    b.initial_states(&[a0, b0]).unwrap();
    let mut fsm = Fsm::new(b.build().unwrap());
    fsm.start(vec![]).unwrap();
    fsm.dispatch(signal(START)).unwrap();
    assert_eq!(fsm.current_state(ra), Some(a0));
    fsm.dispatch(signal(STOP)).unwrap();
    fsm.dispatch(signal(START)).unwrap();
    assert_eq!(fsm.current_state(ra), Some(a1));
    assert!(fsm.is_active(b1));
    assert!(!fsm.is_active(b0));
}

#[test]
fn self_transition_runs_exit_and_entry() {
    let mut b = FsmBuilder::new(8, 16);
    let r = b.region(0);
    let s0 = b.state(r);
    b.on_entry(s0, Effect::Increment(0)).unwrap();
    b.on_exit(s0, Effect::Increment(1)).unwrap();
    b.transition(s0, Trigger::Signal(START), go(Guard::Always, Effect::Nothing, s0));
    b.initial_state(s0).unwrap();
    let mut fsm = Fsm::new(b.build().unwrap());
    fsm.start(vec![0, 0]).unwrap();
    assert_eq!(fsm.var(0), Some(1));
    fsm.dispatch(signal(START)).unwrap();
    assert_eq!(fsm.var(0), Some(2));
    assert_eq!(fsm.var(1), Some(1));
    assert_eq!(fsm.current_state(r), Some(s0));
}

#[test]
fn looping_posts_overflow_and_clear_the_queue() {
    let mut b = FsmBuilder::new(4, 16);
    let r = b.region(0);
    let s0 = b.state(r);
    b.transition(s0, Trigger::Signal(PING), go(Guard::Always, Effect::Post(signal(PING)), s0));
    b.initial_state(s0).unwrap();
    let mut fsm = Fsm::new(b.build().unwrap());
    fsm.start(vec![]).unwrap();
    assert_eq!(fsm.dispatch(signal(PING)), Err(FsmError::QueueOverflow));
    assert!(fsm.pending_events().is_empty());
    assert_eq!(fsm.current_state(r), Some(s0));
}

#[test]
fn full_queue_overflows() {
    let mut b = FsmBuilder::new(1, 16);
    let r = b.region(0);
    let s0 = b.state(r);
    b.transition(s0, Trigger::Signal(PING), go(Guard::Always, Effect::Post(signal(PONG)), s0));
    b.on_entry(s0, Effect::Post(signal(PONG))).unwrap();
    b.initial_state(s0).unwrap();
    let mut fsm = Fsm::new(b.build().unwrap());
    fsm.start(vec![]).unwrap();
    assert_eq!(fsm.pending_events().len(), 1);
    assert_eq!(fsm.dispatch(signal(PING)), Err(FsmError::QueueOverflow));
    assert!(fsm.pending_events().is_empty());
}

#[test]
fn failed_hook_discards_only_its_event() {
    let mut b = FsmBuilder::new(8, 16);
    let r = b.region(0);
    let s0 = b.state(r);
    let s1 = b.state(r);
    let s2 = b.state(r);
    b.transition(s0, Trigger::Signal(START), go(Guard::Always, Effect::Post(signal(STOP)), s1));
    b.on_entry(s1, Effect::Increment(9)).unwrap();
    b.transition(s0, Trigger::Signal(STOP), go(Guard::Always, Effect::Nothing, s2));
    b.initial_state(s0).unwrap();
    let mut fsm = Fsm::new(b.build().unwrap());
    fsm.start(vec![0]).unwrap();
    assert_eq!(fsm.dispatch(signal(START)), Err(FsmError::HookFailed));
    assert_eq!(fsm.current_state(r), Some(s0));
    assert!(fsm.notifications().contains(&Notification::HookFailed));
    assert!(fsm.pending_events().is_empty());
    assert_eq!(fsm.dispatch(signal(STOP)), Ok(DispatchOutcome { handled: 1 }));
    assert_eq!(fsm.current_state(r), Some(s2));
}

#[test]
fn increment_overflow_fails_the_hook() {
    let mut b = FsmBuilder::new(8, 16);
    let r = b.region(0);
    let s0 = b.state(r);
    b.transition(s0, Trigger::Signal(START), go(Guard::Always, Effect::Increment(0), s0));
    b.initial_state(s0).unwrap();
    let mut fsm = Fsm::new(b.build().unwrap());
    fsm.start(vec![u64::MAX]).unwrap();
    assert_eq!(fsm.dispatch(signal(START)), Err(FsmError::HookFailed));
    assert_eq!(fsm.var(0), Some(u64::MAX));
}

#[test]
fn failing_entry_hook_keeps_machine_unstarted() {
    let mut b = FsmBuilder::new(8, 16);
    let r = b.region(0);
    let s0 = b.state(r);
    b.on_entry(s0, Effect::Assign { var: 3, value: 1 }).unwrap();
    b.initial_state(s0).unwrap();
    let mut fsm = Fsm::new(b.build().unwrap());
    assert_eq!(fsm.start(vec![0]), Err(FsmError::HookFailed));
    assert!(!fsm.is_started());
    assert_eq!(fsm.current_state(r), None);
    assert_eq!(fsm.start(vec![0, 0, 0, 0]), Ok(()));
    assert_eq!(fsm.var(3), Some(1));
}

#[test]
fn build_rejects_missing_initial_state() {
    let mut b = FsmBuilder::new(8, 16);
    let r = b.region(0);
    let _ = b.state(r);
    assert_eq!(b.build().err(), Some(FsmError::NoInitialState));
}

#[test]
fn build_rejects_target_in_another_region() {
    let mut b = FsmBuilder::new(8, 16);
    let ra = b.region(0);
    let rb = b.region(0);
    let a = b.state(ra);
    let c = b.state(rb);
    b.transition(a, Trigger::Signal(START), go(Guard::Always, Effect::Nothing, c));
    b.initial_states(&[a, c]).unwrap();
    assert_eq!(b.build().err(), Some(FsmError::UnknownTransitionTarget));
}

#[test]
fn build_rejects_unknown_target_and_region() {
    let mut b = FsmBuilder::new(8, 16);
    let r = b.region(0);
    let a = b.state(r);
    b.transition(a, Trigger::Signal(START), go(Guard::Always, Effect::Nothing, 42));
    b.initial_state(a).unwrap();
    assert_eq!(b.build().err(), Some(FsmError::UnknownTransitionTarget));
    let mut b = FsmBuilder::new(8, 16);
    let r = b.region(5);
    let a = b.state(r);
    b.initial_state(a).unwrap();
    assert_eq!(b.build().err(), Some(FsmError::UnknownTransitionTarget));
}

#[test]
fn builder_setters_reject_unknown_states() {
    let mut b = FsmBuilder::new(8, 16);
    let r = b.region(0);
    let a = b.state(r);
    assert_eq!(b.on_entry(a + 1, Effect::Nothing), Err(FsmError::UnknownTransitionTarget));
    assert_eq!(b.on_exit(a + 1, Effect::Nothing), Err(FsmError::UnknownTransitionTarget));
    assert_eq!(b.timer(a + 1, 3), Err(FsmError::UnknownTransitionTarget));
    assert_eq!(b.terminal(a + 1), Err(FsmError::UnknownTransitionTarget));
    assert_eq!(b.initial_state(a + 1), Err(FsmError::UnknownTransitionTarget));
    assert_eq!(b.initial_states(&[a, a + 1]), Err(FsmError::UnknownTransitionTarget));
    let t = {
        b.initial_state(a).unwrap();
        b.build().unwrap()
    };
    assert_eq!(t.machine_count(), 1);
    assert_eq!(t.region_count(), 1);
    assert_eq!(t.state_count(), 1);
}

#[test]
fn sub_machine_ids_and_validation() {
    let mut b = FsmBuilder::new(8, 16);
    let r = b.region(0);
    let (host, m) = b.sub_machine(r);
    assert_eq!((host, m), (0, 1));
    let (host2, m2) = b.sub_machine(r);
    assert_eq!((host2, m2), (1, 2));
    b.initial_state(host).unwrap();
    let t = b.build().unwrap();
    assert_eq!(t.machine_count(), 3);
    let mut fsm = Fsm::new(t);
    fsm.start(vec![]).unwrap();
    assert_eq!(fsm.current_state(r), Some(host));
}

#[test]
fn events_debug_records_dequeued_events() {
    let (t, _, _) = idle_running();
    assert!(!t.events_debug());
    let mut b = FsmBuilder::new(8, 16);
    let r = b.region(0);
    let s0 = b.state(r);
    b.initial_state(s0).unwrap();
    b.events_debug();
    let t = b.build().unwrap();
    assert!(t.events_debug());
    let mut fsm = Fsm::new(t);
    fsm.start(vec![]).unwrap();
    fsm.dispatch(signal(PING)).unwrap();
    assert!(fsm.notifications().contains(&Notification::Dequeued(signal(PING))));
}

#[test]
fn host_with_terminal_child_still_resolves_events() {
    let mut b = FsmBuilder::new(8, 16);
    let r = b.region(0);
    let (host, m) = b.sub_machine(r);
    let x = b.state(r);
    let cr = b.region(m);
    let done = b.state(cr);
    b.terminal(done).unwrap();
    b.transition(host, Trigger::Signal(START), go(Guard::Always, Effect::Nothing, x));
    b.initial_states(&[host, done]).unwrap();
    let mut fsm = Fsm::new(b.build().unwrap());
    fsm.start(vec![]).unwrap();
    assert_eq!(fsm.current_state(cr), Some(done));
    assert!(fsm.dispatch(signal(START)).is_ok());
    assert_eq!(fsm.current_state(r), Some(x));
    assert_eq!(fsm.current_state(cr), None);
    assert!(fsm.notifications().contains(&Notification::GuardEvaluated { transition: 0, candidate: 0, result: true }));
}

#[test]
fn completion_without_completed_transition_resolves_the_event() {
    let mut b = FsmBuilder::new(8, 16);
    let r = b.region(0);
    let (host, m) = b.sub_machine(r);
    let x = b.state(r);
    let cr = b.region(m);
    let leaf = b.state(cr);
    let end = b.state(cr);
    b.terminal(end).unwrap();
    b.transition(leaf, Trigger::Signal(PING), go(Guard::Always, Effect::Nothing, end));
    b.transition(host, Trigger::Signal(PING), go(Guard::Always, Effect::Nothing, x));
    b.initial_states(&[host, leaf]).unwrap();
    let mut fsm = Fsm::new(b.build().unwrap());
    fsm.start(vec![]).unwrap();
    fsm.dispatch(signal(PING)).unwrap();
    assert_eq!(fsm.current_state(r), Some(x));
    assert!(fsm.notifications().contains(&Notification::StateEntered(end)));
}

#[test]
fn initial_states_last_named_wins() {
    let mut b = FsmBuilder::new(8, 16);
    let ra = b.region(0);
    let rb = b.region(0);
    let a1 = b.state(ra);
    let a2 = b.state(ra);
    let b1 = b.state(rb);
    b.initial_state(b1).unwrap();
    b.initial_states(&[a1, a2]).unwrap();
    assert_eq!(b.regions[ra].initial, Some(a2));
    assert_eq!(b.regions[rb].initial, Some(b1));
    assert_eq!(b.initial_states(&[a1, 99]), Err(FsmError::UnknownTransitionTarget));
    assert_eq!(b.regions[ra].initial, Some(a2));
    let mut fsm = Fsm::new(b.build().unwrap());
    fsm.start(vec![]).unwrap();
    assert_eq!(fsm.current_state(ra), Some(a2));
    assert_eq!(fsm.current_state(rb), Some(b1));
}
