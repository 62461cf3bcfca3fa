//! Properties of the engine, proved over the functions of `semantics`.
use vstd::prelude::*;
use crate::semantics::{
    RunView, Notification, enter, start_from, exit, stop_from, fire, try_from, resolve, first_match,
    triggers, process_region, step_from, handle, active_in, hosts, depth, apply, arm, disarm, post,
    expire_from, dispatch_all, drain, dispatch_step, run_queue, expire_step, with_context, fresh,
};
use crate::table::{BuiltFsm, Event};
use crate::fsm::Fsm;

verus! {

/// `a` is a prefix of `b`.
pub open spec fn prefix<T>(a: Seq<T>, b: Seq<T>) -> bool {
    &&& a.len() <= b.len()
    &&& forall|i: int| 0 <= i < a.len() ==> #[trigger] b[i] == a[i]
}

/// `w2` follows `w` by steps: sizes kept, log and queue only appended to.
pub open spec fn grows(w: RunView, w2: RunView) -> bool {
    &&& w2.active.len() == w.active.len()
    &&& w2.timers.len() == w.timers.len()
    &&& prefix(w.log, w2.log)
    &&& prefix(w.queue, w2.queue)
}

/// Every region whose machine index is at most `m`, except region `r`, keeps
/// its active state.
pub open spec fn frame(t: BuiltFsm, w: RunView, w2: RunView, m: int, r: int) -> bool {
    forall|b: int| 0 <= b < w.active.len() && b < t.n_regions() && (#[trigger] t.regions@[b]).machine <= m && b != r
        ==> w2.active[b] == w.active[b]
}

proof fn lemma_hooks(t: BuiltFsm, w: RunView, e: crate::table::Effect, s: usize)
    requires
        s < w.timers.len(),
    ensures
        apply(t, w, e) matches Ok(w2) ==> grows(w, w2) && w2.active == w.active && w2.timers == w.timers,
        arm(t, w, s) matches Ok(w2) ==> grows(w, w2) && w2.active == w.active
            && w2.timers.len() == w.timers.len(),
        grows(w, disarm(w, s)) && disarm(w, s).active == w.active,
{
}

proof fn lemma_enter(t: BuiltFsm, w: RunView, s: usize)
    requires
        t.wf(),
        s < t.n_states(),
        w.fits(t),
    ensures
        enter(t, w, s) matches Ok(w2) ==> grows(w, w2) && frame(t, w, w2, t.machine_of(s as int), t.region_of(s as int))
            && w2.log.len() > w.log.len() && w2.log[w.log.len() as int] == Notification::StateEntered(s)
            && w2.active[t.region_of(s as int)] == Some(s),
    decreases depth(t, s), 0int, 0int,
{
    assert(t.wf_state(s as int));
    let r = t.region_of(s as int);
    let w1 = RunView { active: w.active.update(r, Some(s)), ..w }.log_push(Notification::StateEntered(s));
    lemma_hooks(t, w1, t.states@[s as int].entry, s);
    if let Ok(w2) = apply(t, w1, t.states@[s as int].entry) {
        lemma_hooks(t, w2, t.states@[s as int].entry, s);
        if let Ok(w3) = arm(t, w2, s) {
            if let Some(m) = t.states@[s as int].sub {
                if hosts(t, s, m) {
                    lemma_start(t, w3, m, 0);
                }
            }
        }
    }
}

proof fn lemma_start(t: BuiltFsm, w: RunView, m: usize, i: nat)
    requires
        t.wf(),
        w.fits(t),
    ensures
        start_from(t, w, m, i) matches Ok(w2) ==> grows(w, w2) && frame(t, w, w2, m - 1, -1)
            && (forall|b: int| i <= b < t.n_regions() && (#[trigger] t.regions@[b]).machine == m
                ==> active_in(t, w2, b) is Some)
            && (forall|b: int| 0 <= b < i && b < t.n_regions() && (#[trigger] t.regions@[b]).machine == m
                ==> w2.active[b] == w.active[b]),
    decreases t.machines - m, 1int, t.n_regions() - i,
{
    if i >= t.n_regions() || m >= t.machines {
        assert forall|b: int| i <= b < t.n_regions() && (#[trigger] t.regions@[b]).machine == m
            implies active_in(t, w, b) is Some by {
            assert(t.wf_region(b));
        }
    } else if t.regions@[i as int].machine == m {
        assert(t.wf_region(i as int));
        let s = t.regions@[i as int].initial->0;
        lemma_enter(t, w, s);
        if let Ok(w1) = enter(t, w, s) {
            lemma_start(t, w1, m, i + 1);
            if let Ok(w2) = start_from(t, w1, m, i + 1) {
                assert(w2.active[i as int] == w1.active[i as int]);
                assert(active_in(t, w2, i as int) is Some);
            }
        }
    } else {
        lemma_start(t, w, m, i + 1);
    }
}

proof fn lemma_exit(t: BuiltFsm, w: RunView, s: usize)
    requires
        t.wf(),
        s < t.n_states(),
        w.fits(t),
    ensures
        exit(t, w, s) matches Ok(w2) ==> grows(w, w2) && frame(t, w, w2, t.machine_of(s as int), t.region_of(s as int))
            && w2.log.len() > w.log.len() && w2.log.last() == Notification::StateExited(s)
            && w2.timers[s as int] is None && w2.active[t.region_of(s as int)] is None,
    decreases depth(t, s), 0int, 0int,
{
    assert(t.wf_state(s as int));
    let w1 = match t.states@[s as int].sub {
        Some(m) => if hosts(t, s, m) { stop_from(t, w, m, 0) } else { Ok(w) },
        None => Ok(w),
    };
    if let Some(m) = t.states@[s as int].sub {
        if hosts(t, s, m) {
            lemma_stop(t, w, m, 0);
        }
    }
    if let Ok(w1) = w1 {
        lemma_hooks(t, w1, t.states@[s as int].exit, s);
        if let Ok(w2) = apply(t, w1, t.states@[s as int].exit) {
            lemma_hooks(t, w2, t.states@[s as int].exit, s);
        }
    }
}

proof fn lemma_stop(t: BuiltFsm, w: RunView, m: usize, i: nat)
    requires
        t.wf(),
        w.fits(t),
    ensures
        stop_from(t, w, m, i) matches Ok(w2) ==> grows(w, w2) && frame(t, w, w2, m - 1, -1)
            && (forall|b: int| i <= b < t.n_regions() && (#[trigger] t.regions@[b]).machine == m
                ==> active_in(t, w2, b) is None)
            && (forall|b: int| 0 <= b < i && b < t.n_regions() && (#[trigger] t.regions@[b]).machine == m
                ==> w2.active[b] == w.active[b]),
    decreases t.machines - m, 1int, t.n_regions() - i,
{
    if i >= t.n_regions() || m >= t.machines {
        assert forall|b: int| i <= b < t.n_regions() && (#[trigger] t.regions@[b]).machine == m
            implies active_in(t, w, b) is None by {
            assert(t.wf_region(b));
        }
    } else if t.regions@[i as int].machine == m {
        if let Some(s) = active_in(t, w, i as int) {
            lemma_exit(t, w, s);
            if let Ok(w1) = exit(t, w, s) {
                lemma_stop(t, w1, m, i + 1);
                if let Ok(w2) = stop_from(t, w1, m, i + 1) {
                    assert(w2.active[i as int] == w1.active[i as int]);
                    assert(active_in(t, w2, i as int) is None);
                }
            }
        } else {
            lemma_stop(t, w, m, i + 1);
        }
    } else {
        lemma_stop(t, w, m, i + 1);
    }
}

proof fn lemma_first_match(t: BuiltFsm, s: usize, ev: Option<Event>, k: nat)
    ensures
        first_match(t, s, ev, k) matches Some(q) ==> k <= q < t.transitions@.len()
            && triggers(t.transitions@[q as int], s, ev),
    decreases t.transitions@.len() - k,
{
    if k < t.transitions@.len() && !triggers(t.transitions@[k as int], s, ev) {
        lemma_first_match(t, s, ev, k + 1);
    }
}

proof fn lemma_fire(t: BuiltFsm, w: RunView, s: usize, k: nat, j: nat)
    requires
        t.wf(),
        w.fits(t),
        s < t.n_states(),
        k < t.transitions@.len(),
        t.transitions@[k as int].source == s,
        j < t.transitions@[k as int].candidates@.len(),
    ensures
        fire(t, w, s, k, j) matches Ok(w2) ==> grows(w, w2) && frame(t, w, w2, t.machine_of(s as int), t.region_of(s as int))
            && active_in(t, w2, t.region_of(s as int)) is Some,
{
    assert(t.wf_transition(k as int));
    let c = t.transitions@[k as int].candidates@[j as int];
    assert(c.target < t.n_states() && t.region_of(c.target as int) == t.region_of(s as int));
    lemma_exit(t, w, s);
    if let Ok(w1) = exit(t, w, s) {
        lemma_hooks(t, w1, c.action, s);
        if let Ok(w2) = apply(t, w1, c.action) {
            let w3 = w2.log_push(Notification::ActionExecuted { transition: k as usize, candidate: j as usize });
            lemma_enter(t, w3, c.target);
        }
    }
}

proof fn lemma_try(t: BuiltFsm, w: RunView, r: usize, s: usize, ev: Option<Event>, k: nat, j: nat)
    requires
        t.wf(),
        w.fits(t),
        s < t.n_states(),
        k < t.transitions@.len(),
        t.transitions@[k as int].source == s,
    ensures
        try_from(t, w, r, s, ev, k, j) matches Ok(w2) ==> grows(w, w2) && frame(t, w, w2, t.machine_of(s as int), t.region_of(s as int))
            && (active_in(t, w, t.region_of(s as int)) is Some ==> active_in(t, w2, t.region_of(s as int)) is Some),
    decreases t.transitions@[k as int].candidates@.len() - j,
{
    let cs = t.transitions@[k as int].candidates@;
    if j < cs.len() {
        let g = crate::semantics::guard_holds(t, w, cs[j as int].guard, ev);
        let w1 = w.log_push(Notification::GuardEvaluated { transition: k as usize, candidate: j as usize, result: g });
        if g {
            lemma_fire(t, w1, s, k, j);
        } else {
            lemma_try(t, w1, r, s, ev, k, j + 1);
        }
    }
}

proof fn lemma_resolve(t: BuiltFsm, w: RunView, r: usize, s: usize, ev: Option<Event>)
    requires
        t.wf(),
        w.fits(t),
        s < t.n_states(),
    ensures
        resolve(t, w, r, s, ev) matches Ok(w2) ==> grows(w, w2) && frame(t, w, w2, t.machine_of(s as int), t.region_of(s as int))
            && (active_in(t, w, t.region_of(s as int)) is Some ==> active_in(t, w2, t.region_of(s as int)) is Some),
{
    lemma_first_match(t, s, ev, 0);
    if let Some(k) = first_match(t, s, ev, 0) {
        lemma_try(t, w, r, s, ev, k, 0);
    }
}

proof fn lemma_process(t: BuiltFsm, w: RunView, r: usize, s: usize, ev: Event)
    requires
        t.wf(),
        w.fits(t),
        s < t.n_states(),
    ensures
        process_region(t, w, r, s, ev) matches Ok(w2) ==> grows(w, w2) && frame(t, w, w2, t.machine_of(s as int), t.region_of(s as int))
            && (active_in(t, w, t.region_of(s as int)) is Some ==> active_in(t, w2, t.region_of(s as int)) is Some),
    decreases depth(t, s), 0int, 0int,
{
    assert(t.wf_state(s as int));
    match t.states@[s as int].sub {
        Some(c) => if hosts(t, s, c) {
            lemma_step(t, w, c, ev, 0);
            if let Ok(w1) = step_from(t, w, c, ev, 0) {
                lemma_resolve(t, w1, r, s, None);
                lemma_resolve(t, w1, r, s, Some(ev));
            }
        } else {
            lemma_resolve(t, w, r, s, Some(ev));
        },
        None => lemma_resolve(t, w, r, s, Some(ev)),
    }
}

proof fn lemma_step(t: BuiltFsm, w: RunView, m: usize, ev: Event, i: nat)
    requires
        t.wf(),
        w.fits(t),
    ensures
        step_from(t, w, m, ev, i) matches Ok(w2) ==> grows(w, w2) && frame(t, w, w2, m - 1, -1)
            && forall|b: int| 0 <= b < i && b < t.n_regions() && (#[trigger] t.regions@[b]).machine == m
                ==> w2.active[b] == w.active[b],
    decreases t.machines - m, 1int, t.n_regions() - i,
{
    if i >= t.n_regions() || m >= t.machines {
    } else if t.regions@[i as int].machine == m {
        if let Some(s) = active_in(t, w, i as int) {
            lemma_process(t, w, i as usize, s, ev);
            if let Ok(w1) = process_region(t, w, i as usize, s, ev) {
                lemma_step(t, w1, m, ev, i + 1);
            }
        } else {
            lemma_step(t, w, m, ev, i + 1);
        }
    } else {
        lemma_step(t, w, m, ev, i + 1);
    }
}

proof fn lemma_untouched(t: BuiltFsm, w: RunView, ev: Event, i: nat, b: usize)
    requires
        t.wf(),
        w.fits(t),
        i <= b < t.n_regions(),
        t.regions@[b as int].machine == 0,
        active_in(t, w, b as int) matches Some(s) && t.states@[s as int].sub is None
            && first_match(t, s, Some(ev), 0) is None,
    ensures
        step_from(t, w, 0, ev, i) matches Ok(w2) ==> w2.active[b as int] == w.active[b as int],
    decreases t.n_regions() - i,
{
    if t.regions@[i as int].machine == 0 {
        if let Some(s) = active_in(t, w, i as int) {
            assert(t.wf_region(i as int));
            if i == b {
                if let Ok(w1) = process_region(t, w, i as usize, s, ev) {
                    lemma_step(t, w1, 0, ev, i + 1);
                }
            } else {
                lemma_process(t, w, i as usize, s, ev);
                if let Ok(w1) = process_region(t, w, i as usize, s, ev) {
                    lemma_untouched(t, w1, ev, i + 1, b);
                }
            }
        } else {
            lemma_untouched(t, w, ev, i + 1, b);
        }
    } else {
        lemma_untouched(t, w, ev, i + 1, b);
    }
}

/// Orthogonality: when the active state of region `b` of the root machine
/// declares no transition for `ev` (and hosts no submachine), handling `ev`
/// leaves region `b` in that state, whatever the other regions do.
pub proof fn orthogonal_regions(t: BuiltFsm, w: RunView, ev: Event, b: usize)
    requires
        t.wf(),
        w.fits(t),
        b < t.n_regions(),
        t.regions@[b as int].machine == 0,
        active_in(t, w, b as int) matches Some(s) && t.states@[s as int].sub is None
            && first_match(t, s, Some(ev), 0) is None,
    ensures
        handle(t, w, ev) matches Ok(w2) ==> w2.active[b as int] == w.active[b as int],
{
    let w0 = if t.events_debug { w.log_push(Notification::Dequeued(ev)) } else { w };
    lemma_untouched(t, w0, ev, 0, b);
}

/// Run-to-completion: the handling of one event only appends to the queue,
/// so every event it posts is handled after all events queued before it.
pub proof fn cascade_appends(t: BuiltFsm, w: RunView, ev: Event)
    requires
        t.wf(),
        w.fits(t),
    ensures
        handle(t, w, ev) matches Ok(w2) ==> prefix(w.queue, w2.queue) && prefix(w.log, w2.log),
{
    let w0 = if t.events_debug { w.log_push(Notification::Dequeued(ev)) } else { w };
    lemma_step(t, w0, 0, ev, 0);
}

proof fn lemma_stop_logs(t: BuiltFsm, w: RunView, c: usize, i: nat, q: usize, leaf: usize)
    requires
        t.wf(),
        w.fits(t),
        c < t.machines,
        i <= q < t.n_regions(),
        t.regions@[q as int].machine == c,
        active_in(t, w, q as int) == Some(leaf),
    ensures
        stop_from(t, w, c, i) matches Ok(w2) ==> exists|idx: int|
            w.log.len() <= idx < w2.log.len() && w2.log[idx] == Notification::StateExited(leaf),
    decreases t.n_regions() - i,
{
    if t.regions@[i as int].machine == c {
        if let Some(si) = active_in(t, w, i as int) {
            lemma_exit(t, w, si);
            if let Ok(w1) = exit(t, w, si) {
                if i == q {
                    lemma_stop(t, w1, c, i + 1);
                    if let Ok(w2) = stop_from(t, w1, c, i + 1) {
                        let idx = w1.log.len() - 1;
                        assert(w2.log[idx] == Notification::StateExited(leaf));
                    }
                } else {
                    assert(t.wf_region(i as int));
                    assert(active_in(t, w1, q as int) == Some(leaf));
                    lemma_stop_logs(t, w1, c, i + 1, q, leaf);
                }
            }
        } else {
            lemma_stop_logs(t, w, c, i + 1, q, leaf);
        }
    } else {
        lemma_stop_logs(t, w, c, i + 1, q, leaf);
    }
}

/// Exit order of a composite state: the active state `leaf` of a region `q`
/// of the submachine hosted by `s` is reported exited before `s` itself,
/// which is reported last.
pub proof fn composite_exit_order(t: BuiltFsm, w: RunView, s: usize, c: usize, q: usize, leaf: usize)
    requires
        t.wf(),
        w.fits(t),
        s < t.n_states(),
        hosts(t, s, c),
        q < t.n_regions(),
        t.regions@[q as int].machine == c,
        active_in(t, w, q as int) == Some(leaf),
    ensures
        exit(t, w, s) matches Ok(w2) ==> {
            &&& w2.log.last() == Notification::StateExited(s)
            &&& exists|idx: int| w.log.len() <= idx < w2.log.len() - 1 && w2.log[idx] == Notification::StateExited(leaf)
        },
{
    lemma_exit(t, w, s);
    lemma_stop_logs(t, w, c, 0, q, leaf);
    lemma_stop(t, w, c, 0);
    if let Ok(w1) = stop_from(t, w, c, 0) {
        let idx = choose|idx: int| w.log.len() <= idx < w1.log.len() && w1.log[idx] == Notification::StateExited(leaf);
        lemma_hooks(t, w1, t.states@[s as int].exit, s);
        if let Ok(w2) = apply(t, w1, t.states@[s as int].exit) {
            lemma_hooks(t, w2, t.states@[s as int].exit, s);
            let w3 = disarm(w2, s);
            assert(w3.log[idx] == Notification::StateExited(leaf));
            let w4 = RunView { active: w3.active.update(t.region_of(s as int), None), ..w3 }.log_push(
                Notification::StateExited(s),
            );
            assert(exit(t, w, s) == Ok::<RunView, crate::table::FsmError>(w4));
            assert(w4.log[idx] == Notification::StateExited(leaf));
            assert(idx < w4.log.len() - 1);
        }
    }
}

proof fn lemma_start_logs(t: BuiltFsm, w: RunView, c: usize, i: nat, q: usize)
    requires
        t.wf(),
        w.fits(t),
        c < t.machines,
        i <= q < t.n_regions(),
        t.regions@[q as int].machine == c,
    ensures
        start_from(t, w, c, i) matches Ok(w2) ==> exists|idx: int|
            w.log.len() <= idx < w2.log.len()
            && w2.log[idx] == Notification::StateEntered(t.regions@[q as int].initial->0),
    decreases t.n_regions() - i,
{
    assert(t.wf_region(i as int));
    if t.regions@[i as int].machine == c {
        let s0 = t.regions@[i as int].initial->0;
        lemma_enter(t, w, s0);
        if let Ok(w1) = enter(t, w, s0) {
            if i == q {
                lemma_start(t, w1, c, i + 1);
                if let Ok(w2) = start_from(t, w1, c, i + 1) {
                    let idx = w.log.len() as int;
                    assert(w2.log[idx] == Notification::StateEntered(s0));
                }
            } else {
                lemma_start_logs(t, w1, c, i + 1, q);
            }
        }
    } else {
        lemma_start_logs(t, w, c, i + 1, q);
    }
}

/// Entry order of a composite state: `s` is reported entered first, and the
/// initial state of each region `q` of the submachine it hosts afterwards.
pub proof fn composite_entry_order(t: BuiltFsm, w: RunView, s: usize, c: usize, q: usize)
    requires
        t.wf(),
        w.fits(t),
        s < t.n_states(),
        hosts(t, s, c),
        q < t.n_regions(),
        t.regions@[q as int].machine == c,
    ensures
        enter(t, w, s) matches Ok(w2) ==> {
            &&& w2.log[w.log.len() as int] == Notification::StateEntered(s)
            &&& exists|idx: int| w.log.len() < idx < w2.log.len()
                && w2.log[idx] == Notification::StateEntered(t.regions@[q as int].initial->0)
        },
{
    lemma_enter(t, w, s);
    assert(t.wf_state(s as int));
    let r = t.region_of(s as int);
    let w1 = RunView { active: w.active.update(r, Some(s)), ..w }.log_push(Notification::StateEntered(s));
    lemma_hooks(t, w1, t.states@[s as int].entry, s);
    if let Ok(w2) = apply(t, w1, t.states@[s as int].entry) {
        lemma_hooks(t, w2, t.states@[s as int].entry, s);
        if let Ok(w3) = arm(t, w2, s) {
            lemma_start_logs(t, w3, c, 0, q);
        }
    }
}

/// Run-to-completion in the drain loop: the head event's whole cascade is
/// handled first; afterwards the events that were already waiting still lead
/// the queue, in their order, ahead of everything the cascade posted.
pub proof fn queued_events_first(t: BuiltFsm, w: RunView, fuel: nat)
    requires
        t.wf(),
        w.fits(t),
        w.queue.len() >= 1,
        fuel >= 1,
    ensures
        ({
            let w0 = RunView { queue: w.queue.drop_first(), ..w };
            handle(t, w0, w.queue[0]) matches Ok(w1) ==> {
                &&& w1.queue.subrange(0, w0.queue.len() as int) == w0.queue
                &&& drain(t, w, fuel) == ({
                    let (w2, n, e) = drain(t, w1, (fuel - 1) as nat);
                    (w2, n + 1, e)
                })
            }
        }),
{
    let w0 = RunView { queue: w.queue.drop_first(), ..w };
    cascade_appends(t, w0, w.queue[0]);
    if let Ok(w1) = handle(t, w0, w.queue[0]) {
        assert(w1.queue.subrange(0, w0.queue.len() as int) =~= w0.queue);
    }
}

/// The state whose timer produced `e`, or -1 for a signal.
pub open spec fn timeout_state(e: Event) -> int {
    match e {
        Event::Timeout { state } => state as int,
        _ => -1,
    }
}

/// The timer of state `st` is armed in `w` and due at `now`.
pub open spec fn due(w: RunView, st: int, now: u64) -> bool {
    w.timers[st] matches Some(d) && d <= now
}

proof fn lemma_expire(t: BuiltFsm, w: RunView, now: u64, p: nat)
    requires
        w.timers.len() <= usize::MAX,
    ensures
        expire_from(t, w, now, p) matches Ok(w2) ==> {
            &&& w2.timers.len() == w.timers.len()
            &&& w2.active == w.active
            &&& prefix(w.queue, w2.queue)
            &&& forall|idx: int| w.queue.len() <= idx < w2.queue.len() ==> {
                let st = #[trigger] timeout_state(w2.queue[idx]);
                p <= st < w.timers.len() && due(w, st, now)
            }
            &&& forall|i: int, j: int| w.queue.len() <= i < j < w2.queue.len()
                ==> #[trigger] timeout_state(w2.queue[i]) < #[trigger] timeout_state(w2.queue[j])
            &&& forall|st: int| p <= st < w.timers.len() && #[trigger] due(w, st, now) ==> {
                &&& w2.timers[st] is None
                &&& exists|idx: int| w.queue.len() <= idx < w2.queue.len() && timeout_state(w2.queue[idx]) == st
            }
            &&& forall|st: int| 0 <= st < w.timers.len() && w.timers[st] is None ==> #[trigger] w2.timers[st] is None
        },
    decreases w.timers.len() - p,
{
    if p < w.timers.len() {
        if let Some(d) = w.timers[p as int] {
            if d <= now {
                let w0 = disarm(w, p as usize);
                if let Ok(w1) = post(t, w0, Event::Timeout { state: p as usize }) {
                    lemma_expire(t, w1, now, p + 1);
                    if let Ok(w2) = expire_from(t, w1, now, p + 1) {
                        let k = w.queue.len() as int;
                        assert(w2.queue[k] == w1.queue[k]);
                        assert(timeout_state(w2.queue[k]) == p);
                        assert forall|st: int| p + 1 <= st < w1.timers.len() && #[trigger] due(w1, st, now)
                            implies due(w, st, now) by {}
                        assert forall|st: int| p <= st < w.timers.len() && #[trigger] due(w, st, now) implies {
                            &&& w2.timers[st] is None
                            &&& exists|idx: int| w.queue.len() <= idx < w2.queue.len() && timeout_state(w2.queue[idx]) == st
                        } by {
                            if st == p {
                                assert(timeout_state(w2.queue[k]) == st);
                            } else {
                                assert(due(w1, st, now));
                            }
                        }
                        assert forall|idx: int| w.queue.len() <= idx < w2.queue.len() implies {
                            let st = #[trigger] timeout_state(w2.queue[idx]);
                            p <= st < w.timers.len() && due(w, st, now)
                        } by {
                            if idx > k {
                                assert(due(w1, timeout_state(w2.queue[idx]), now));
                            }
                        }
                    }
                }
            } else {
                lemma_expire(t, w, now, p + 1);
            }
        } else {
            lemma_expire(t, w, now, p + 1);
        }
    }
}

/// Timer cancellation: once `s` is exited its timer is disarmed, so no
/// later expiry, at any time, enqueues a timeout of `s`.
pub proof fn exit_cancels_timer(t: BuiltFsm, w: RunView, s: usize, now: u64)
    requires
        t.wf(),
        t.n_states() <= usize::MAX,
        w.fits(t),
        s < t.n_states(),
    ensures
        exit(t, w, s) matches Ok(w2) ==> {
            &&& w2.timers[s as int] is None
            &&& expire_from(t, w2, now, 0) matches Ok(w3) ==> forall|idx: int|
                w2.queue.len() <= idx < w3.queue.len() ==> #[trigger] w3.queue[idx] != (Event::Timeout { state: s })
        },
{
    lemma_exit(t, w, s);
    if let Ok(w2) = exit(t, w, s) {
        lemma_expire(t, w2, now, 0);
        if let Ok(w3) = expire_from(t, w2, now, 0) {
            assert forall|idx: int| w2.queue.len() <= idx < w3.queue.len()
                implies #[trigger] w3.queue[idx] != (Event::Timeout { state: s }) by {
                assert(due(w2, timeout_state(w3.queue[idx]), now));
            }
        }
    }
}

/// A due timer yields exactly one timeout event: the expiry enqueues it once
/// and disarms the timer, so no later expiry enqueues it again.
pub proof fn timeout_fires_once(t: BuiltFsm, w: RunView, now: u64, later: u64, s: usize)
    requires
        s < w.timers.len() <= usize::MAX,
        due(w, s as int, now),
    ensures
        expire_from(t, w, now, 0) matches Ok(w2) ==> {
            &&& exists|idx: int| w.queue.len() <= idx < w2.queue.len() && w2.queue[idx] == (Event::Timeout { state: s })
            &&& forall|i: int, j: int| w.queue.len() <= i < w2.queue.len() && w.queue.len() <= j < w2.queue.len()
                && #[trigger] w2.queue[i] == (Event::Timeout { state: s })
                && #[trigger] w2.queue[j] == (Event::Timeout { state: s }) ==> i == j
            &&& expire_from(t, w2, later, 0) matches Ok(w3) ==> forall|idx: int|
                w2.queue.len() <= idx < w3.queue.len() ==> #[trigger] w3.queue[idx] != (Event::Timeout { state: s })
        },
{
    lemma_expire(t, w, now, 0);
    if let Ok(w2) = expire_from(t, w, now, 0) {
        assert(due(w, s as int, now));
        let idx = choose|idx: int| w.queue.len() <= idx < w2.queue.len() && timeout_state(w2.queue[idx]) == s;
        assert(timeout_state(w2.queue[idx]) == s);
        assert(due(w, timeout_state(w2.queue[idx]), now));
        assert(w2.queue[idx] == (Event::Timeout { state: s }));
        assert forall|i: int, j: int| w.queue.len() <= i < w2.queue.len() && w.queue.len() <= j < w2.queue.len()
            && #[trigger] w2.queue[i] == (Event::Timeout { state: s })
            && #[trigger] w2.queue[j] == (Event::Timeout { state: s }) implies i == j by {
            if i < j {
                assert(timeout_state(w2.queue[i]) < timeout_state(w2.queue[j]));
            } else if j < i {
                assert(timeout_state(w2.queue[j]) < timeout_state(w2.queue[i]));
            }
        }
        lemma_expire(t, w2, later, 0);
        if let Ok(w3) = expire_from(t, w2, later, 0) {
            assert forall|idx: int| w2.queue.len() <= idx < w3.queue.len()
                implies #[trigger] w3.queue[idx] != (Event::Timeout { state: s }) by {
                assert(due(w2, timeout_state(w3.queue[idx]), later));
            }
        }
    }
}

/// Determinism: two machines over the same table and in the same
/// configuration (the same active states, context, timers, queue and
/// notifications) end in the same configuration, with the same results and
/// notification stream, after the same sequence of dispatches.
pub proof fn replay_is_deterministic(a: Fsm, b: Fsm, evs: Seq<Event>)
    requires
        a.table == b.table,
        a.run@ == b.run@,
    ensures
        dispatch_all(a.table, a.run@, evs) == dispatch_all(b.table, b.run@, evs),
        dispatch_all(a.table, a.run@, evs).0.log == dispatch_all(b.table, b.run@, evs).0.log,
        dispatch_all(a.table, a.run@, evs).0.active == dispatch_all(b.table, b.run@, evs).0.active,
    decreases evs.len(),
{
}

/// Between dispatches every region of the root machine holds exactly one
/// state, one of its own.
pub open spec fn root_settled(t: BuiltFsm, w: RunView) -> bool {
    forall|r: int| 0 <= r < t.n_regions() && (#[trigger] t.regions@[r]).machine == 0
        ==> active_in(t, w, r) is Some
}

proof fn lemma_step_settled(t: BuiltFsm, w: RunView, ev: Event, i: nat)
    requires
        t.wf(),
        w.fits(t),
        root_settled(t, w),
    ensures
        step_from(t, w, 0, ev, i) matches Ok(w2) ==> root_settled(t, w2),
    decreases t.n_regions() - i,
{
    if i < t.n_regions() && 0 < t.machines {
        if t.regions@[i as int].machine == 0 {
            if let Some(s) = active_in(t, w, i as int) {
                lemma_process(t, w, i as usize, s, ev);
                if let Ok(w1) = process_region(t, w, i as usize, s, ev) {
                    assert forall|r: int| 0 <= r < t.n_regions() && (#[trigger] t.regions@[r]).machine == 0
                        implies active_in(t, w1, r) is Some by {
                        if r != i {
                            assert(w1.active[r] == w.active[r]);
                        }
                    }
                    lemma_step_settled(t, w1, ev, i + 1);
                }
            } else {
                lemma_step_settled(t, w, ev, i + 1);
            }
        } else {
            lemma_step_settled(t, w, ev, i + 1);
        }
    }
}

/// Handling one event keeps every root region settled.
pub proof fn handle_keeps_settled(t: BuiltFsm, w: RunView, ev: Event)
    requires
        t.wf(),
        w.fits(t),
        root_settled(t, w),
    ensures
        handle(t, w, ev) matches Ok(w2) ==> root_settled(t, w2) && w2.fits(t),
{
    let w0 = if t.events_debug { w.log_push(Notification::Dequeued(ev)) } else { w };
    assert(root_settled(t, w0));
    lemma_step_settled(t, w0, ev, 0);
    lemma_step(t, w0, 0, ev, 0);
}

proof fn lemma_drain_settled(t: BuiltFsm, w: RunView, fuel: nat)
    requires
        t.wf(),
        w.fits(t),
        root_settled(t, w),
    ensures
        root_settled(t, drain(t, w, fuel).0),
        drain(t, w, fuel).0.fits(t),
    decreases fuel,
{
    if w.queue.len() > 0 && fuel > 0 {
        let ev = w.queue[0];
        let w0 = RunView { queue: w.queue.drop_first(), ..w };
        assert(root_settled(t, w0));
        handle_keeps_settled(t, w0, ev);
        match handle(t, w0, ev) {
            Ok(w1) => lemma_drain_settled(t, w1, (fuel - 1) as nat),
            Err(_) => {
                let w3 = w0.log_push(Notification::HookFailed);
                assert(root_settled(t, w3));
                lemma_drain_settled(t, w3, (fuel - 1) as nat);
            },
        }
    }
}

/// One active state per region of the root machine is kept by every step
/// of a started machine: a dispatch, a drain and a timer expiry; and a
/// successful start establishes it.
pub proof fn steps_keep_settled(t: BuiltFsm, w: RunView, ev: Event, now: u64, context: Seq<u64>)
    requires
        t.wf(),
        t.n_states() <= usize::MAX,
        w.fits(t),
    ensures
        start_from(t, with_context(w, context), 0, 0) matches Ok(w2) ==> root_settled(t, w2) && w2.fits(t),
        root_settled(t, w) ==> {
            &&& root_settled(t, dispatch_step(t, w, ev).0) && dispatch_step(t, w, ev).0.fits(t)
            &&& root_settled(t, run_queue(t, w).0) && run_queue(t, w).0.fits(t)
            &&& root_settled(t, expire_step(t, w, now).0) && expire_step(t, w, now).0.fits(t)
        },
{
    lemma_start(t, with_context(w, context), 0, 0);
    if root_settled(t, w) {
        lemma_drain_settled(t, w, t.max_steps as nat);
        if let Ok(w1) = post(t, w, ev) {
            assert(root_settled(t, w1));
            lemma_drain_settled(t, w1, t.max_steps as nat);
        }
        assert(root_settled(t, RunView { queue: Seq::empty(), ..w }));
        let w0 = RunView { now: if now > w.now { now } else { w.now }, ..w };
        assert(root_settled(t, w0));
        lemma_expire(t, w0, w0.now, 0);
        if let Ok(w2) = expire_from(t, w0, w0.now, 0) {
            assert(root_settled(t, w2));
        }
        assert(root_settled(t, RunView { queue: Seq::empty(), ..w0 }));
    }
}

/// A submachine's regions follow its host: entering the host leaves every
/// region of the submachine holding one of its own states, and exiting the
/// host leaves every one of them empty.
pub proof fn submachine_follows_host(t: BuiltFsm, w: RunView, h: usize, c: usize)
    requires
        t.wf(),
        w.fits(t),
        h < t.n_states(),
        hosts(t, h, c),
    ensures
        enter(t, w, h) matches Ok(w2) ==> forall|b: int| 0 <= b < t.n_regions()
            && (#[trigger] t.regions@[b]).machine == c ==> active_in(t, w2, b) is Some,
        exit(t, w, h) matches Ok(w2) ==> forall|b: int| 0 <= b < t.n_regions()
            && (#[trigger] t.regions@[b]).machine == c ==> active_in(t, w2, b) is None,
{
    assert(t.wf_state(h as int));
    let r = t.region_of(h as int);
    let w1 = RunView { active: w.active.update(r, Some(h)), ..w }.log_push(Notification::StateEntered(h));
    lemma_hooks(t, w1, t.states@[h as int].entry, h);
    if let Ok(w2) = apply(t, w1, t.states@[h as int].entry) {
        lemma_hooks(t, w2, t.states@[h as int].entry, h);
        if let Ok(w3) = arm(t, w2, h) {
            lemma_start(t, w3, c, 0);
        }
    }
    lemma_stop(t, w, c, 0);
    if let Ok(v1) = stop_from(t, w, c, 0) {
        lemma_hooks(t, v1, t.states@[h as int].exit, h);
        if let Ok(v2) = apply(t, v1, t.states@[h as int].exit) {
            lemma_hooks(t, v2, t.states@[h as int].exit, h);
            let v3 = disarm(v2, h);
            let v4 = RunView { active: v3.active.update(r, None), ..v3 }.log_push(Notification::StateExited(h));
            assert(exit(t, w, h) == Ok::<RunView, crate::table::FsmError>(v4));
            assert forall|b: int| 0 <= b < t.n_regions() && (#[trigger] t.regions@[b]).machine == c
                implies active_in(t, v4, b) is None by {
                assert(b != r);
                assert(v4.active[b] == v1.active[b]);
                assert(active_in(t, v1, b) is None);
            }
        }
    }
}

} // verus!
