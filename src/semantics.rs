//! The meaning of the engine as functions from one configuration to the next.
use vstd::prelude::*;
use crate::table::{BuiltFsm, Effect, Event, FsmError, Guard, StateDef, TransitionDef, Trigger};

verus! {

/// What the engine reports to an observer, in the order it happens.
#[derive(Clone, Copy, Debug, PartialEq, Eq, Structural)]
pub enum Notification {
    /// An event was taken off the queue (only when the table asks for it).
    Dequeued(Event),
    QueuePush(Event),
    GuardEvaluated { transition: usize, candidate: usize, result: bool },
    ActionExecuted { transition: usize, candidate: usize },
    StateExited(usize),
    StateEntered(usize),
    TimerArmed(usize),
    TimerDisarmed(usize),
    /// The active state of the region declares no transition for the event.
    NoTransition { region: usize },
    /// A transition was declared but none of its guards held.
    GuardsRejected { region: usize },
    /// A hook failed; the event's effects were discarded.
    HookFailed,
}

/// The mathematical configuration of a running machine.
pub struct RunView {
    /// Active state per region; `None` while the region's machine is not live.
    pub active: Seq<Option<usize>>,
    pub ctx: Seq<u64>,
    /// Deadline per state while its timer is armed.
    pub timers: Seq<Option<u64>>,
    pub queue: Seq<Event>,
    pub log: Seq<Notification>,
    pub now: u64,
}

impl RunView {
    pub open spec fn log_push(self, n: Notification) -> RunView {
        RunView { log: self.log.push(n), ..self }
    }

    /// Sizes fit the table.
    pub open spec fn fits(self, t: BuiltFsm) -> bool {
        &&& self.active.len() == t.n_regions()
        &&& self.timers.len() == t.n_states()
    }

    /// `w` may become `self` by a step: sizes kept, queue and log only extended.
    pub open spec fn extends(self, w: RunView) -> bool {
        &&& self.active.len() == w.active.len()
        &&& self.ctx.len() == w.ctx.len()
        &&& self.timers.len() == w.timers.len()
        &&& w.queue.is_prefix_of(self.queue)
        &&& w.log.is_prefix_of(self.log)
        &&& self.now == w.now
    }
}

pub open spec fn sat_add(a: u64, b: u64) -> u64 {
    if a + b > u64::MAX { u64::MAX } else { (a + b) as u64 }
}

pub open spec fn post(t: BuiltFsm, w: RunView, ev: Event) -> Result<RunView, FsmError> {
    if w.queue.len() < t.queue_capacity {
        Ok(RunView { queue: w.queue.push(ev), log: w.log.push(Notification::QueuePush(ev)), ..w })
    } else {
        Err(FsmError::QueueOverflow)
    }
}

pub open spec fn apply(t: BuiltFsm, w: RunView, e: Effect) -> Result<RunView, FsmError> {
    match e {
        Effect::Nothing => Ok(w),
        Effect::Increment(v) => {
            if v < w.ctx.len() && w.ctx[v as int] < u64::MAX {
                Ok(RunView { ctx: w.ctx.update(v as int, (w.ctx[v as int] + 1) as u64), ..w })
            } else {
                Err(FsmError::HookFailed)
            }
        },
        Effect::Assign { var, value } => {
            if var < w.ctx.len() {
                Ok(RunView { ctx: w.ctx.update(var as int, value), ..w })
            } else {
                Err(FsmError::HookFailed)
            }
        },
        Effect::Post(ev) => post(t, w, ev),
    }
}

pub open spec fn arm(t: BuiltFsm, w: RunView, s: usize) -> Result<RunView, FsmError> {
    match t.states@[s as int].timer {
        None => Ok(w),
        Some(d) => {
            if w.timers[s as int] is Some {
                Err(FsmError::TimerAlreadyArmed)
            } else {
                Ok(RunView {
                    timers: w.timers.update(s as int, Some(sat_add(w.now, d))),
                    log: w.log.push(Notification::TimerArmed(s)),
                    ..w
                })
            }
        },
    }
}

pub open spec fn disarm(w: RunView, s: usize) -> RunView {
    if w.timers[s as int] is Some {
        RunView {
            timers: w.timers.update(s as int, None),
            log: w.log.push(Notification::TimerDisarmed(s)),
            ..w
        }
    } else {
        w
    }
}

/// The measure of a state: how far its machine is from the deepest one.
pub open spec fn depth(t: BuiltFsm, s: usize) -> int {
    t.machines - t.machine_of(s as int)
}

/// Whether the submachine bound to `s` lies deeper than `s`.
pub open spec fn hosts(t: BuiltFsm, s: usize, m: usize) -> bool {
    &&& t.states@[s as int].sub == Some(m)
    &&& t.machine_of(s as int) < m < t.machines
}

/// Entering `s`: mark it active, run its entry hook, arm its timer, then
/// start the submachine it hosts.
pub open spec fn enter(t: BuiltFsm, w: RunView, s: usize) -> Result<RunView, FsmError>
    decreases depth(t, s), 0int, 0int,
{
    let r = t.region_of(s as int);
    let w1 = RunView { active: w.active.update(r, Some(s)), ..w }.log_push(Notification::StateEntered(s));
    match apply(t, w1, t.states@[s as int].entry) {
        Err(e) => Err(e),
        Ok(w2) => match arm(t, w2, s) {
            Err(e) => Err(e),
            Ok(w3) => match t.states@[s as int].sub {
                Some(m) => if hosts(t, s, m) { start_from(t, w3, m, 0) } else { Ok(w3) },
                None => Ok(w3),
            },
        },
    }
}

/// Starting machine `m` from region `i` on: enter the initial state of each
/// of its regions, in region order.
pub open spec fn start_from(t: BuiltFsm, w: RunView, m: usize, i: nat) -> Result<RunView, FsmError>
    decreases t.machines - m, 1int, t.n_regions() - i,
{
    if i >= t.n_regions() || m >= t.machines {
        Ok(w)
    } else if t.regions@[i as int].machine == m {
        match t.regions@[i as int].initial {
            Some(s) => if s < t.n_states() && t.region_of(s as int) == i {
                match enter(t, w, s) {
                    Err(e) => Err(e),
                    Ok(w1) => start_from(t, w1, m, i + 1),
                }
            } else {
                start_from(t, w, m, i + 1)
            },
            None => start_from(t, w, m, i + 1),
        }
    } else {
        start_from(t, w, m, i + 1)
    }
}

/// Exiting `s`: stop the submachine it hosts (innermost first), run its exit
/// hook, disarm its timer, and leave its region empty.
pub open spec fn exit(t: BuiltFsm, w: RunView, s: usize) -> Result<RunView, FsmError>
    decreases depth(t, s), 0int, 0int,
{
    let w1 = match t.states@[s as int].sub {
        Some(m) => if hosts(t, s, m) { stop_from(t, w, m, 0) } else { Ok(w) },
        None => Ok(w),
    };
    match w1 {
        Err(e) => Err(e),
        Ok(w1) => match apply(t, w1, t.states@[s as int].exit) {
            Err(e) => Err(e),
            Ok(w2) => {
                let w3 = disarm(w2, s);
                Ok(RunView { active: w3.active.update(t.region_of(s as int), None), ..w3 }.log_push(
                    Notification::StateExited(s),
                ))
            },
        },
    }
}

/// The active state of region `i` when it is a state of that region.
pub open spec fn active_in(t: BuiltFsm, w: RunView, i: int) -> Option<usize> {
    match w.active[i] {
        Some(s) => if s < t.n_states() && t.region_of(s as int) == i { Some(s) } else { None },
        None => None,
    }
}

/// Stopping machine `m` from region `i` on: exit the active state of each of
/// its regions, in region order.
pub open spec fn stop_from(t: BuiltFsm, w: RunView, m: usize, i: nat) -> Result<RunView, FsmError>
    decreases t.machines - m, 1int, t.n_regions() - i,
{
    if i >= t.n_regions() || m >= t.machines {
        Ok(w)
    } else if t.regions@[i as int].machine == m {
        match active_in(t, w, i as int) {
            Some(s) => match exit(t, w, s) {
                Err(e) => Err(e),
                Ok(w1) => stop_from(t, w1, m, i + 1),
            },
            None => stop_from(t, w, m, i + 1),
        }
    } else {
        stop_from(t, w, m, i + 1)
    }
}

pub open spec fn guard_holds(t: BuiltFsm, w: RunView, g: Guard, ev: Option<Event>) -> bool {
    match g {
        Guard::Always => true,
        Guard::VarAtLeast { var, bound } => var < w.ctx.len() && w.ctx[var as int] >= bound,
        Guard::VarBelow { var, bound } => var < w.ctx.len() && w.ctx[var as int] < bound,
        Guard::ValueIs(v) => ev matches Some(Event::Signal { value, .. }) && value == v,
        Guard::InState(q) => q < t.n_states() && t.region_of(q as int) < t.n_regions()
            && w.active[t.region_of(q as int)] == Some(q),
    }
}

/// Whether transition `td` leaves `s` on `ev` (`None` stands for the
/// completion of the submachine hosted by `s`).
pub open spec fn triggers(td: TransitionDef, s: usize, ev: Option<Event>) -> bool {
    td.source == s && match (td.trigger, ev) {
        (Trigger::Signal(k), Some(Event::Signal { kind, .. })) => k == kind,
        (Trigger::Timeout, Some(Event::Timeout { state })) => state == s,
        (Trigger::Completed, None) => true,
        _ => false,
    }
}

/// The first transition from index `k` on that leaves `s` on `ev`.
pub open spec fn first_match(t: BuiltFsm, s: usize, ev: Option<Event>, k: nat) -> Option<nat>
    decreases t.transitions@.len() - k,
{
    if k >= t.transitions@.len() {
        None
    } else if triggers(t.transitions@[k as int], s, ev) {
        Some(k)
    } else {
        first_match(t, s, ev, k + 1)
    }
}

/// Taking candidate `j` of transition `k` out of `s`: exit, action, entry.
pub open spec fn fire(t: BuiltFsm, w: RunView, s: usize, k: nat, j: nat) -> Result<RunView, FsmError> {
    let c = t.transitions@[k as int].candidates@[j as int];
    match exit(t, w, s) {
        Err(e) => Err(e),
        Ok(w1) => match apply(t, w1, c.action) {
            Err(e) => Err(e),
            Ok(w2) => enter(t, w2.log_push(Notification::ActionExecuted { transition: k as usize, candidate: j as usize }), c.target),
        },
    }
}

/// Trying the candidates of transition `k` from `j` on; the first whose guard
/// holds fires.
pub open spec fn try_from(t: BuiltFsm, w: RunView, r: usize, s: usize, ev: Option<Event>, k: nat, j: nat) -> Result<RunView, FsmError>
    decreases t.transitions@[k as int].candidates@.len() - j,
{
    let cs = t.transitions@[k as int].candidates@;
    if j >= cs.len() {
        Ok(w.log_push(Notification::GuardsRejected { region: r }))
    } else {
        let g = guard_holds(t, w, cs[j as int].guard, ev);
        let w1 = w.log_push(Notification::GuardEvaluated { transition: k as usize, candidate: j as usize, result: g });
        if g {
            fire(t, w1, s, k, j)
        } else {
            try_from(t, w1, r, s, ev, k, j + 1)
        }
    }
}

/// Resolving `ev` for region `r`, whose active state is `s`.
pub open spec fn resolve(t: BuiltFsm, w: RunView, r: usize, s: usize, ev: Option<Event>) -> Result<RunView, FsmError> {
    match first_match(t, s, ev, 0) {
        None => Ok(w.log_push(Notification::NoTransition { region: r })),
        Some(k) => try_from(t, w, r, s, ev, k, 0),
    }
}

/// Whether every region of machine `m` from `i` on rests in a terminal state.
pub open spec fn terminal_from(t: BuiltFsm, w: RunView, m: usize, i: nat) -> bool
    decreases t.n_regions() - i,
{
    if i >= t.n_regions() {
        true
    } else if t.regions@[i as int].machine == m {
        &&& active_in(t, w, i as int) matches Some(s) && t.states@[s as int].terminal
        &&& terminal_from(t, w, m, i + 1)
    } else {
        terminal_from(t, w, m, i + 1)
    }
}

/// Machine `m` has regions, and each rests in a terminal state.
pub open spec fn completed(t: BuiltFsm, w: RunView, m: usize) -> bool {
    &&& exists|i: int| 0 <= i < t.n_regions() && (#[trigger] t.regions@[i]).machine == m
    &&& terminal_from(t, w, m, 0)
}

/// Whether handling an event moved machine `c` into its terminal states
/// (from `w` to `w1`) while `s`, its host, declares a transition on that
/// completion.
pub open spec fn completes(t: BuiltFsm, w: RunView, w1: RunView, s: usize, c: usize) -> bool {
    &&& !completed(t, w, c)
    &&& completed(t, w1, c)
    &&& first_match(t, s, None, 0) is Some
}

/// Handling `ev` in region `r` with active state `s`: forward it to the
/// submachine `s` hosts; if that brought the submachine into its terminal
/// states and `s` declares a transition on completion, `s` resolves the
/// completion, otherwise `s` resolves `ev` itself.
pub open spec fn process_region(t: BuiltFsm, w: RunView, r: usize, s: usize, ev: Event) -> Result<RunView, FsmError>
    decreases depth(t, s), 0int, 0int,
{
    match t.states@[s as int].sub {
        Some(c) => if hosts(t, s, c) {
            match step_from(t, w, c, ev, 0) {
                Err(e) => Err(e),
                Ok(w1) => if completes(t, w, w1, s, c) {
                    resolve(t, w1, r, s, None)
                } else {
                    resolve(t, w1, r, s, Some(ev))
                },
            }
        } else {
            resolve(t, w, r, s, Some(ev))
        },
        None => resolve(t, w, r, s, Some(ev)),
    }
}

/// Handling `ev` in machine `m`, region by region from `i` on.
pub open spec fn step_from(t: BuiltFsm, w: RunView, m: usize, ev: Event, i: nat) -> Result<RunView, FsmError>
    decreases t.machines - m, 1int, t.n_regions() - i,
{
    if i >= t.n_regions() || m >= t.machines {
        Ok(w)
    } else if t.regions@[i as int].machine == m {
        match active_in(t, w, i as int) {
            Some(s) => match process_region(t, w, i as usize, s, ev) {
                Err(e) => Err(e),
                Ok(w1) => step_from(t, w1, m, ev, i + 1),
            },
            None => step_from(t, w, m, ev, i + 1),
        }
    } else {
        step_from(t, w, m, ev, i + 1)
    }
}

/// The whole cascade of one event taken off the queue.
pub open spec fn handle(t: BuiltFsm, w: RunView, ev: Event) -> Result<RunView, FsmError> {
    let w0 = if t.events_debug { w.log_push(Notification::Dequeued(ev)) } else { w };
    step_from(t, w0, 0, ev, 0)
}

/// The outcome of draining the queue with at most `fuel` events handled:
/// the configuration, the number of events handled, and the error if any.
/// A failed hook discards its event's effects and draining goes on; an
/// overflow, an exhausted budget or a doubly armed timer discards the
/// event's effects, empties the queue and stops.
pub open spec fn drain(t: BuiltFsm, w: RunView, fuel: nat) -> (RunView, nat, Option<FsmError>)
    decreases fuel,
{
    if w.queue.len() == 0 {
        (w, 0, None)
    } else if fuel == 0 {
        (RunView { queue: Seq::empty(), ..w }, 0, Some(FsmError::QueueOverflow))
    } else {
        let ev = w.queue[0];
        let w0 = RunView { queue: w.queue.drop_first(), ..w };
        match handle(t, w0, ev) {
            Ok(w1) => {
                let (w2, n, e) = drain(t, w1, (fuel - 1) as nat);
                (w2, n + 1, e)
            },
            Err(FsmError::HookFailed) => {
                let (w2, n, e) = drain(t, w0.log_push(Notification::HookFailed), (fuel - 1) as nat);
                (w2, n + 1, if e is None { Some(FsmError::HookFailed) } else { e })
            },
            Err(e) => (RunView { queue: Seq::empty(), ..w0 }, 1, Some(e)),
        }
    }
}

/// Enqueueing a timeout for every armed timer from state `s` on whose
/// deadline has passed at `now`, disarming it.
pub open spec fn expire_from(t: BuiltFsm, w: RunView, now: u64, s: nat) -> Result<RunView, FsmError>
    decreases w.timers.len() - s,
{
    if s >= w.timers.len() {
        Ok(w)
    } else {
        match w.timers[s as int] {
            Some(d) => if d <= now {
                match post(t, disarm(w, s as usize), Event::Timeout { state: s as usize }) {
                    Err(e) => Err(e),
                    Ok(w1) => expire_from(t, w1, now, s + 1),
                }
            } else {
                expire_from(t, w, now, s + 1)
            },
            None => expire_from(t, w, now, s + 1),
        }
    }
}

/// What a successful dispatch reports.
#[derive(Clone, Copy, Debug, PartialEq, Eq, Structural)]
pub struct DispatchOutcome {
    /// Number of events taken off the queue and handled.
    pub handled: usize,
}

pub open spec fn outcome(n: nat, e: Option<FsmError>) -> Result<DispatchOutcome, FsmError> {
    match e {
        None => Ok(DispatchOutcome { handled: n as usize }),
        Some(e) => Err(e),
    }
}

/// Draining the queue with the table's budget.
pub open spec fn run_queue(t: BuiltFsm, w: RunView) -> (RunView, Result<DispatchOutcome, FsmError>) {
    let (fw, n, e) = drain(t, w, t.max_steps as nat);
    (fw, outcome(n, e))
}

/// Posting `ev`, then draining the queue to completion.
pub open spec fn dispatch_step(t: BuiltFsm, w: RunView, ev: Event) -> (RunView, Result<DispatchOutcome, FsmError>) {
    match post(t, w, ev) {
        Err(e) => (RunView { queue: Seq::empty(), ..w }, Err(e)),
        Ok(w1) => run_queue(t, w1),
    }
}

/// Dispatching each of `evs` in turn: the final configuration and each result.
pub open spec fn dispatch_all(t: BuiltFsm, w: RunView, evs: Seq<Event>) -> (RunView, Seq<Result<DispatchOutcome, FsmError>>)
    decreases evs.len(),
{
    if evs.len() == 0 {
        (w, Seq::empty())
    } else {
        let (w1, r) = dispatch_step(t, w, evs[0]);
        let (w2, rs) = dispatch_all(t, w1, evs.drop_first());
        (w2, seq![r] + rs)
    }
}

/// A machine before `start`: nothing active, nothing armed, nothing queued.
pub open spec fn fresh(t: BuiltFsm) -> RunView {
    RunView {
        active: Seq::new(t.n_regions(), |i: int| None),
        ctx: Seq::empty(),
        timers: Seq::new(t.n_states(), |i: int| None),
        queue: Seq::empty(),
        log: Seq::empty(),
        now: 0,
    }
}

/// The configuration right before starting with `context`.
pub open spec fn with_context(w: RunView, context: Seq<u64>) -> RunView {
    RunView { ctx: context, ..w }
}

/// Advancing the clock to `now` (it never goes back) and enqueueing the
/// expired timers; on failure nothing but the clock changes and the queue is
/// emptied.
pub open spec fn expire_step(t: BuiltFsm, w: RunView, now: u64) -> (RunView, Result<(), FsmError>) {
    let w0 = RunView { now: if now > w.now { now } else { w.now }, ..w };
    match expire_from(t, w0, w0.now, 0) {
        Ok(v) => (v, Ok(())),
        Err(e) => (RunView { queue: Seq::empty(), ..w0 }, Err(e)),
    }
}

} // verus!
