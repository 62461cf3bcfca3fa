//! The executable steps of the engine, each proved equal to its counterpart
//! in `semantics`.
use vstd::prelude::*;
use crate::semantics::{
    Notification, RunView, post, apply, arm, disarm, depth, enter, start_from, exit, stop_from, active_in, guard_holds, triggers, first_match, fire, try_from, resolve, terminal_from, completed, process_region, step_from, handle, drain, expire_from, fresh,
};
use crate::table::{BuiltFsm, Effect, Event, FsmError, Guard, Trigger};

verus! {

/// The mutable part of a running machine.
pub struct Run {
    pub active: Vec<Option<usize>>,
    pub ctx: Vec<u64>,
    pub timers: Vec<Option<u64>>,
    pub queue: Vec<Event>,
    pub log: Vec<Notification>,
    pub now: u64,
}

impl View for Run {
    type V = RunView;

    open spec fn view(&self) -> RunView {
        RunView {
            active: self.active@,
            ctx: self.ctx@,
            timers: self.timers@,
            queue: self.queue@,
            log: self.log@,
            now: self.now,
        }
    }
}

/// The exec result `r` with final configuration `w` matches the spec result `s`.
pub open spec fn agrees(r: Result<(), FsmError>, w: RunView, s: Result<RunView, FsmError>) -> bool {
    match s {
        Ok(v) => r is Ok && w == v,
        Err(e) => r == Err::<(), FsmError>(e),
    }
}

pub fn copy_vec<T: Copy>(v: &Vec<T>) -> (r: Vec<T>)
    ensures
        r@ == v@,
{
    let mut r: Vec<T> = Vec::new();
    let mut i: usize = 0;
    while i < v.len()
        invariant
            i <= v@.len(),
            r@ == v@.subrange(0, i as int),
        decreases v@.len() - i,
    {
        r.push(v[i]);
        i = i + 1;
        assert(r@ =~= v@.subrange(0, i as int));
    }
    assert(r@ =~= v@);
    r
}

impl Run {
    pub fn snapshot(&self) -> (r: Run)
        ensures
            r@ == self@,
    {
        Run {
            active: copy_vec(&self.active),
            ctx: copy_vec(&self.ctx),
            timers: copy_vec(&self.timers),
            queue: copy_vec(&self.queue),
            log: copy_vec(&self.log),
            now: self.now,
        }
    }

    fn note(&mut self, n: Notification)
        ensures
            final(self)@ == old(self)@.log_push(n),
    {
        self.log.push(n);
    }
}

fn post_exec(t: &BuiltFsm, w: &mut Run, ev: Event) -> (r: Result<(), FsmError>)
    ensures
        agrees(r, final(w)@, post(*t, old(w)@, ev)),
{
    if w.queue.len() < t.queue_capacity {
        w.queue.push(ev);
        w.log.push(Notification::QueuePush(ev));
        Ok(())
    } else {
        Err(FsmError::QueueOverflow)
    }
}

fn apply_exec(t: &BuiltFsm, w: &mut Run, e: Effect) -> (r: Result<(), FsmError>)
    ensures
        agrees(r, final(w)@, apply(*t, old(w)@, e)),
{
    match e {
        Effect::Nothing => Ok(()),
        Effect::Increment(v) => {
            if v < w.ctx.len() && w.ctx[v] < u64::MAX {
                let x = w.ctx[v] + 1;
                w.ctx.set(v, x);
                Ok(())
            } else {
                Err(FsmError::HookFailed)
            }
        },
        Effect::Assign { var, value } => {
            if var < w.ctx.len() {
                w.ctx.set(var, value);
                Ok(())
            } else {
                Err(FsmError::HookFailed)
            }
        },
        Effect::Post(ev) => post_exec(t, w, ev),
    }
}

fn arm_exec(t: &BuiltFsm, w: &mut Run, s: usize) -> (r: Result<(), FsmError>)
    requires
        t.wf(),
        s < t.n_states(),
        old(w)@.fits(*t),
    ensures
        agrees(r, final(w)@, arm(*t, old(w)@, s)),
{
    match t.states[s].timer {
        None => Ok(()),
        Some(d) => {
            if w.timers[s].is_some() {
                Err(FsmError::TimerAlreadyArmed)
            } else {
                let deadline = w.now.saturating_add(d);
                w.timers.set(s, Some(deadline));
                w.log.push(Notification::TimerArmed(s));
                Ok(())
            }
        },
    }
}

fn disarm_exec(w: &mut Run, s: usize)
    requires
        s < old(w).timers@.len(),
    ensures
        final(w)@ == disarm(old(w)@, s),
{
    if w.timers[s].is_some() {
        w.timers.set(s, None);
        w.log.push(Notification::TimerDisarmed(s));
    }
}

/// What every step keeps: the table's sizes and the context's length.
pub open spec fn kept(t: BuiltFsm, before: RunView, after: RunView) -> bool {
    &&& after.fits(t)
    &&& after.ctx.len() == before.ctx.len()
}

fn enter_exec(t: &BuiltFsm, w: &mut Run, s: usize) -> (r: Result<(), FsmError>)
    requires
        t.wf(),
        s < t.n_states(),
        old(w)@.fits(*t),
    ensures
        agrees(r, final(w)@, enter(*t, old(w)@, s)),
        r is Ok ==> kept(*t, old(w)@, final(w)@),
    decreases depth(*t, s), 0int, 0int,
{
    assert(t.wf_state(s as int));
    let region = t.states[s].region;
    w.active.set(region, Some(s));
    w.note(Notification::StateEntered(s));
    let r = apply_exec(t, w, t.states[s].entry);
    if r.is_err() {
        return r;
    }
    let r = arm_exec(t, w, s);
    if r.is_err() {
        return r;
    }
    match t.states[s].sub {
        Some(m) => start_from_exec(t, w, m, 0),
        None => Ok(()),
    }
}

pub(crate) fn start_from_exec(t: &BuiltFsm, w: &mut Run, m: usize, i: usize) -> (r: Result<(), FsmError>)
    requires
        t.wf(),
        m < t.machines,
        i <= t.n_regions(),
        old(w)@.fits(*t),
    ensures
        agrees(r, final(w)@, start_from(*t, old(w)@, m, i as nat)),
        r is Ok ==> kept(*t, old(w)@, final(w)@),
    decreases t.machines - m, 1int, t.n_regions() - i,
{
    if i >= t.regions.len() {
        return Ok(());
    }
    assert(t.wf_region(i as int));
    if t.regions[i].machine == m {
        match t.regions[i].initial {
            Some(s) => {
                let r = enter_exec(t, w, s);
                if r.is_err() {
                    return r;
                }
                start_from_exec(t, w, m, i + 1)
            },
            None => start_from_exec(t, w, m, i + 1),
        }
    } else {
        start_from_exec(t, w, m, i + 1)
    }
}

fn exit_exec(t: &BuiltFsm, w: &mut Run, s: usize) -> (r: Result<(), FsmError>)
    requires
        t.wf(),
        s < t.n_states(),
        old(w)@.fits(*t),
    ensures
        agrees(r, final(w)@, exit(*t, old(w)@, s)),
        r is Ok ==> kept(*t, old(w)@, final(w)@),
    decreases depth(*t, s), 0int, 0int,
{
    assert(t.wf_state(s as int));
    match t.states[s].sub {
        Some(m) => {
            let r = stop_from_exec(t, w, m, 0);
            if r.is_err() {
                return r;
            }
        },
        None => {},
    }
    let r = apply_exec(t, w, t.states[s].exit);
    if r.is_err() {
        return r;
    }
    disarm_exec(w, s);
    let region = t.states[s].region;
    w.active.set(region, None);
    w.note(Notification::StateExited(s));
    Ok(())
}

fn active_in_exec(t: &BuiltFsm, w: &Run, i: usize) -> (r: Option<usize>)
    requires
        t.wf(),
        i < t.n_regions(),
        w@.fits(*t),
    ensures
        r == active_in(*t, w@, i as int),
{
    match w.active[i] {
        Some(s) => {
            if s < t.states.len() && t.states[s].region == i {
                Some(s)
            } else {
                None
            }
        },
        None => None,
    }
}

fn stop_from_exec(t: &BuiltFsm, w: &mut Run, m: usize, i: usize) -> (r: Result<(), FsmError>)
    requires
        t.wf(),
        m < t.machines,
        i <= t.n_regions(),
        old(w)@.fits(*t),
    ensures
        agrees(r, final(w)@, stop_from(*t, old(w)@, m, i as nat)),
        r is Ok ==> kept(*t, old(w)@, final(w)@),
    decreases t.machines - m, 1int, t.n_regions() - i,
{
    if i >= t.regions.len() {
        return Ok(());
    }
    if t.regions[i].machine == m {
        match active_in_exec(t, w, i) {
            Some(s) => {
                let r = exit_exec(t, w, s);
                if r.is_err() {
                    return r;
                }
                stop_from_exec(t, w, m, i + 1)
            },
            None => stop_from_exec(t, w, m, i + 1),
        }
    } else {
        stop_from_exec(t, w, m, i + 1)
    }
}

fn guard_holds_exec(t: &BuiltFsm, w: &Run, g: Guard, ev: Option<Event>) -> (r: bool)
    requires
        t.wf(),
        w@.fits(*t),
    ensures
        r == guard_holds(*t, w@, g, ev),
{
    match g {
        Guard::Always => true,
        Guard::VarAtLeast { var, bound } => var < w.ctx.len() && w.ctx[var] >= bound,
        Guard::VarBelow { var, bound } => var < w.ctx.len() && w.ctx[var] < bound,
        Guard::ValueIs(v) => match ev {
            Some(Event::Signal { value, .. }) => value == v,
            _ => false,
        },
        Guard::InState(q) => {
            if q < t.states.len() && t.states[q].region < t.regions.len() {
                w.active[t.states[q].region] == Some(q)
            } else {
                false
            }
        },
    }
}

fn triggers_exec(t: &BuiltFsm, k: usize, s: usize, ev: Option<Event>) -> (r: bool)
    requires
        k < t.transitions@.len(),
    ensures
        r == triggers(t.transitions@[k as int], s, ev),
{
    let td = &t.transitions[k];
    if td.source != s {
        return false;
    }
    match (td.trigger, ev) {
        (Trigger::Signal(k), Some(Event::Signal { kind, .. })) => k == kind,
        (Trigger::Timeout, Some(Event::Timeout { state })) => state == s,
        (Trigger::Completed, None) => true,
        _ => false,
    }
}

fn first_match_exec(t: &BuiltFsm, s: usize, ev: Option<Event>) -> (r: Option<usize>)
    ensures
        r matches Some(k) ==> first_match(*t, s, ev, 0) == Some(k as nat) && k < t.transitions@.len(),
        r is None ==> first_match(*t, s, ev, 0) is None,
{
    let n = t.transitions.len();
    let mut k: usize = 0;
    while k < n
        invariant
            n == t.transitions@.len(),
            k <= n,
            first_match(*t, s, ev, 0) == first_match(*t, s, ev, k as nat),
        decreases n - k,
    {
        if triggers_exec(t, k, s, ev) {
            return Some(k);
        }
        k = k + 1;
    }
    None
}

fn fire_exec(t: &BuiltFsm, w: &mut Run, s: usize, k: usize, j: usize) -> (r: Result<(), FsmError>)
    requires
        t.wf(),
        s < t.n_states(),
        k < t.transitions@.len(),
        j < t.transitions@[k as int].candidates@.len(),
        old(w)@.fits(*t),
    ensures
        agrees(r, final(w)@, fire(*t, old(w)@, s, k as nat, j as nat)),
        r is Ok ==> kept(*t, old(w)@, final(w)@),
{
    assert(t.wf_transition(k as int));
    let c = t.transitions[k].candidates[j];
    let r = exit_exec(t, w, s);
    if r.is_err() {
        return r;
    }
    let r = apply_exec(t, w, c.action);
    if r.is_err() {
        return r;
    }
    w.note(Notification::ActionExecuted { transition: k, candidate: j });
    enter_exec(t, w, c.target)
}

fn try_from_exec(t: &BuiltFsm, w: &mut Run, r: usize, s: usize, ev: Option<Event>, k: usize, j: usize) -> (res: Result<(), FsmError>)
    requires
        t.wf(),
        s < t.n_states(),
        k < t.transitions@.len(),
        j <= t.transitions@[k as int].candidates@.len(),
        old(w)@.fits(*t),
    ensures
        agrees(res, final(w)@, try_from(*t, old(w)@, r, s, ev, k as nat, j as nat)),
        res is Ok ==> kept(*t, old(w)@, final(w)@),
    decreases t.transitions@[k as int].candidates@.len() - j,
{
    let cs = &t.transitions[k].candidates;
    if j >= cs.len() {
        w.note(Notification::GuardsRejected { region: r });
        return Ok(());
    }
    let g = guard_holds_exec(t, w, cs[j].guard, ev);
    w.note(Notification::GuardEvaluated { transition: k, candidate: j, result: g });
    if g {
        fire_exec(t, w, s, k, j)
    } else {
        try_from_exec(t, w, r, s, ev, k, j + 1)
    }
}

fn resolve_exec(t: &BuiltFsm, w: &mut Run, r: usize, s: usize, ev: Option<Event>) -> (res: Result<(), FsmError>)
    requires
        t.wf(),
        s < t.n_states(),
        old(w)@.fits(*t),
    ensures
        agrees(res, final(w)@, resolve(*t, old(w)@, r, s, ev)),
        res is Ok ==> kept(*t, old(w)@, final(w)@),
{
    match first_match_exec(t, s, ev) {
        None => {
            w.note(Notification::NoTransition { region: r });
            Ok(())
        },
        Some(k) => try_from_exec(t, w, r, s, ev, k, 0),
    }
}

fn terminal_from_exec(t: &BuiltFsm, w: &Run, m: usize) -> (r: bool)
    requires
        t.wf(),
        w@.fits(*t),
    ensures
        r == terminal_from(*t, w@, m, 0),
{
    let n = t.regions.len();
    let mut i: usize = 0;
    while i < n
        invariant
            n == t.n_regions(),
            i <= n,
            t.wf(),
            w@.fits(*t),
            terminal_from(*t, w@, m, 0) == terminal_from(*t, w@, m, i as nat),
        decreases n - i,
    {
        if t.regions[i].machine == m {
            match active_in_exec(t, w, i) {
                Some(s) => {
                    if !t.states[s].terminal {
                        return false;
                    }
                },
                None => {
                    return false;
                },
            }
        }
        i = i + 1;
    }
    true
}

fn completed_exec(t: &BuiltFsm, w: &Run, m: usize) -> (r: bool)
    requires
        t.wf(),
        w@.fits(*t),
    ensures
        r == completed(*t, w@, m),
{
    let n = t.regions.len();
    let mut i: usize = 0;
    while i < n
        invariant
            n == t.n_regions(),
            i <= n,
            t.wf(),
            w@.fits(*t),
            forall|q: int| 0 <= q < i ==> (#[trigger] t.regions@[q]).machine != m,
        decreases n - i,
    {
        if t.regions[i].machine == m {
            return terminal_from_exec(t, w, m);
        }
        i = i + 1;
    }
    false
}

fn process_region_exec(t: &BuiltFsm, w: &mut Run, r: usize, s: usize, ev: Event) -> (res: Result<(), FsmError>)
    requires
        t.wf(),
        s < t.n_states(),
        old(w)@.fits(*t),
    ensures
        agrees(res, final(w)@, process_region(*t, old(w)@, r, s, ev)),
        res is Ok ==> kept(*t, old(w)@, final(w)@),
    decreases depth(*t, s), 0int, 0int,
{
    assert(t.wf_state(s as int));
    match t.states[s].sub {
        Some(c) => {
            let was_done = completed_exec(t, w, c);
            let res = step_from_exec(t, w, c, ev, 0);
            if res.is_err() {
                return res;
            }
            if !was_done && completed_exec(t, w, c) && first_match_exec(t, s, None).is_some() {
                resolve_exec(t, w, r, s, None)
            } else {
                resolve_exec(t, w, r, s, Some(ev))
            }
        },
        None => resolve_exec(t, w, r, s, Some(ev)),
    }
}

fn step_from_exec(t: &BuiltFsm, w: &mut Run, m: usize, ev: Event, i: usize) -> (r: Result<(), FsmError>)
    requires
        t.wf(),
        m < t.machines,
        i <= t.n_regions(),
        old(w)@.fits(*t),
    ensures
        agrees(r, final(w)@, step_from(*t, old(w)@, m, ev, i as nat)),
        r is Ok ==> kept(*t, old(w)@, final(w)@),
    decreases t.machines - m, 1int, t.n_regions() - i,
{
    if i >= t.regions.len() {
        return Ok(());
    }
    if t.regions[i].machine == m {
        match active_in_exec(t, w, i) {
            Some(s) => {
                let r = process_region_exec(t, w, i, s, ev);
                if r.is_err() {
                    return r;
                }
                step_from_exec(t, w, m, ev, i + 1)
            },
            None => step_from_exec(t, w, m, ev, i + 1),
        }
    } else {
        step_from_exec(t, w, m, ev, i + 1)
    }
}

pub fn handle_exec(t: &BuiltFsm, w: &mut Run, ev: Event) -> (r: Result<(), FsmError>)
    requires
        t.wf(),
        old(w)@.fits(*t),
    ensures
        agrees(r, final(w)@, handle(*t, old(w)@, ev)),
        r is Ok ==> kept(*t, old(w)@, final(w)@),
{
    if t.events_debug {
        w.note(Notification::Dequeued(ev));
    }
    step_from_exec(t, w, 0, ev, 0)
}

/// The part of `drain` already done: `count` events handled, `failed` the
/// hook failure met so far, `rest` the outcome of the remaining drain.
pub open spec fn resume(count: nat, failed: Option<FsmError>, rest: (RunView, nat, Option<FsmError>)) -> (RunView, nat, Option<FsmError>) {
    (rest.0, count + rest.1, if rest.2 is None { failed } else { rest.2 })
}

pub fn drain_exec(t: &BuiltFsm, w: &mut Run, fuel: usize) -> (res: (usize, Option<FsmError>))
    requires
        t.wf(),
        old(w)@.fits(*t),
    ensures
        drain(*t, old(w)@, fuel as nat) == (final(w)@, res.0 as nat, res.1),
        kept(*t, old(w)@, final(w)@),
{
    let mut count: usize = 0;
    let mut failed: Option<FsmError> = None;
    let mut fuel_left: usize = fuel;
    while w.queue.len() > 0
        invariant
            t.wf(),
            w@.fits(*t),
            w@.ctx.len() == old(w)@.ctx.len(),
            count + fuel_left == fuel,
            failed is None || failed == Some(FsmError::HookFailed),
            drain(*t, old(w)@, fuel as nat) == resume(count as nat, failed, drain(*t, w@, fuel_left as nat)),
        decreases fuel_left,
    {
        if fuel_left == 0 {
            w.queue.clear();
            return (count, Some(FsmError::QueueOverflow));
        }
        let ghost w_before = w@;
        let ev = w.queue.remove(0);
        assert(w@.queue =~= w_before.queue.drop_first());
        assert(w@ == RunView { queue: w_before.queue.drop_first(), ..w_before });
        let snap = w.snapshot();
        match handle_exec(t, w, ev) {
            Ok(()) => {},
            Err(FsmError::HookFailed) => {
                *w = snap;
                w.note(Notification::HookFailed);
                failed = Some(FsmError::HookFailed);
            },
            Err(e) => {
                *w = snap;
                w.queue.clear();
                assert(w@.queue =~= Seq::<Event>::empty());
                return (count + 1, Some(e));
            },
        }
        count = count + 1;
        fuel_left = fuel_left - 1;
    }
    (count, failed)
}

pub fn expire_exec(t: &BuiltFsm, w: &mut Run, now: u64) -> (r: Result<(), FsmError>)
    requires
        t.wf(),
        old(w)@.fits(*t),
    ensures
        agrees(r, final(w)@, expire_from(*t, old(w)@, now, 0)),
        r is Ok ==> kept(*t, old(w)@, final(w)@),
{
    let n = w.timers.len();
    let mut s: usize = 0;
    while s < n
        invariant
            t.wf(),
            w@.fits(*t),
            w@.ctx.len() == old(w)@.ctx.len(),
            n == w@.timers.len(),
            s <= n,
            expire_from(*t, old(w)@, now, 0) == expire_from(*t, w@, now, s as nat),
        decreases n - s,
    {
        match w.timers[s] {
            Some(d) => {
                if d <= now {
                    disarm_exec(w, s);
                    let r = post_exec(t, w, Event::Timeout { state: s });
                    if r.is_err() {
                        return r;
                    }
                }
            },
            None => {},
        }
        s = s + 1;
    }
    Ok(())
}

/// A run in which nothing is active, armed or queued yet.
pub fn fresh_run(t: &BuiltFsm) -> (w: Run)
    ensures
        w@ == fresh(*t),
        t.n_states() <= usize::MAX,
{
    let n_states = t.states.len();
    let mut active: Vec<Option<usize>> = Vec::new();
    let mut i: usize = 0;
    while i < t.regions.len()
        invariant
            i <= t.n_regions(),
            active@ == Seq::new(i as nat, |q: int| None::<usize>),
        decreases t.n_regions() - i,
    {
        active.push(None);
        i = i + 1;
        assert(active@ =~= Seq::new(i as nat, |q: int| None::<usize>));
    }
    let mut timers: Vec<Option<u64>> = Vec::new();
    let mut i: usize = 0;
    while i < n_states
        invariant
            n_states == t.n_states(),
            i <= t.n_states(),
            timers@ == Seq::new(i as nat, |q: int| None::<u64>),
        decreases t.n_states() - i,
    {
        timers.push(None);
        i = i + 1;
        assert(timers@ =~= Seq::new(i as nat, |q: int| None::<u64>));
    }
    let w = Run { active, ctx: Vec::new(), timers, queue: Vec::new(), log: Vec::new(), now: 0 };
    assert(w@.ctx =~= fresh(*t).ctx);
    assert(w@.queue =~= fresh(*t).queue);
    assert(w@.log =~= fresh(*t).log);
    w
}

} // verus!
