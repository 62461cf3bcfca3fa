//! The dispatcher: a table, the shared context and the state of every region.
use vstd::prelude::*;
use crate::engine::{Run, drain_exec, expire_exec, fresh_run, start_from_exec};
use crate::semantics::{
    DispatchOutcome, Notification, RunView, dispatch_step, expire_step, fresh, run_queue, start_from,
    with_context,
};
use crate::table::{BuiltFsm, Event, FsmError};
use crate::laws::{root_settled, steps_keep_settled};

verus! {

/// A machine assembled from a table. It is `Uninitialized` until `start`
/// succeeds, `Started` afterwards; each `dispatch` runs to completion.
pub struct Fsm {
    pub table: BuiltFsm,
    pub started: bool,
    pub run: Run,
}

impl Fsm {
    /// The table is valid, the configuration fits it, and once started every
    /// region of the root machine holds exactly one of its own states.
    pub open spec fn inv(&self) -> bool {
        &&& self.table.wf()
        &&& self.table.n_states() <= usize::MAX
        &&& self.run@.fits(self.table)
        &&& self.started ==> root_settled(self.table, self.run@)
    }

    /// A machine over `table` that has not started.
    pub fn new(table: BuiltFsm) -> (f: Fsm)
        requires
            table.wf(),
        ensures
            f.inv(),
            f.table == table,
            !f.started,
            f.run@ == fresh(table),
    {
        let run = fresh_run(&table);
        Fsm { table, started: false, run }
    }

    /// Installs `context` and enters the initial state of every region of
    /// the root machine, and of the submachines they host. On failure the
    /// machine stays as it was.
    pub fn start(&mut self, context: Vec<u64>) -> (r: Result<(), FsmError>)
        requires
            old(self).inv(),
        ensures
            final(self).inv(),
            final(self).table == old(self).table,
            old(self).started ==> r == Err::<(), FsmError>(FsmError::AlreadyStarted)
                && final(self).run@ == old(self).run@ && final(self).started,
            !old(self).started ==> match start_from(old(self).table, with_context(old(self).run@, context@), 0, 0) {
                Ok(v) => r is Ok && final(self).run@ == v && final(self).started,
                Err(e) => r == Err::<(), FsmError>(e) && final(self).run@ == old(self).run@ && !final(self).started,
            },
    {
        if self.started {
            return Err(FsmError::AlreadyStarted);
        }
        proof {
            steps_keep_settled(self.table, self.run@, Event::Timeout { state: 0 }, 0, context@);
        }
        let snap = self.run.snapshot();
        self.run.ctx = context;
        let r = start_from_exec(&self.table, &mut self.run, 0, 0);
        match r {
            Ok(()) => {
                self.started = true;
                Ok(())
            },
            Err(e) => {
                self.run = snap;
                Err(e)
            },
        }
    }

    /// Posts `ev` and drains the queue: every event posted meanwhile is
    /// handled, in order, before this returns.
    pub fn dispatch(&mut self, ev: Event) -> (r: Result<DispatchOutcome, FsmError>)
        requires
            old(self).inv(),
        ensures
            final(self).inv(),
            final(self).table == old(self).table,
            final(self).started == old(self).started,
            !old(self).started ==> r == Err::<DispatchOutcome, FsmError>(FsmError::NotStarted)
                && final(self).run@ == old(self).run@,
            old(self).started ==> (final(self).run@, r) == dispatch_step(old(self).table, old(self).run@, ev),
    {
        if !self.started {
            return Err(FsmError::NotStarted);
        }
        proof {
            steps_keep_settled(self.table, self.run@, ev, 0, Seq::empty());
        }
        if self.run.queue.len() >= self.table.queue_capacity {
            self.run.queue.clear();
            assert(self.run@.queue =~= Seq::<Event>::empty());
            return Err(FsmError::QueueOverflow);
        }
        self.run.queue.push(ev);
        self.run.log.push(Notification::QueuePush(ev));
        self.drain_queue()
    }

    fn drain_queue(&mut self) -> (r: Result<DispatchOutcome, FsmError>)
        requires
            old(self).inv(),
        ensures
            final(self).inv(),
            final(self).table == old(self).table,
            final(self).started == old(self).started,
            (final(self).run@, r) == run_queue(old(self).table, old(self).run@),
    {
        proof {
            steps_keep_settled(self.table, self.run@, Event::Timeout { state: 0 }, 0, Seq::empty());
        }
        let (n, e) = drain_exec(&self.table, &mut self.run, self.table.max_steps);
        match e {
            None => Ok(DispatchOutcome { handled: n }),
            Some(e) => Err(e),
        }
    }

    /// Drains the queue, handling the events already in it (such as expired
    /// timers) to completion.
    pub fn process_queue(&mut self) -> (r: Result<DispatchOutcome, FsmError>)
        requires
            old(self).inv(),
        ensures
            final(self).inv(),
            final(self).table == old(self).table,
            final(self).started == old(self).started,
            !old(self).started ==> r == Err::<DispatchOutcome, FsmError>(FsmError::NotStarted)
                && final(self).run@ == old(self).run@,
            old(self).started ==> (final(self).run@, r) == run_queue(old(self).table, old(self).run@),
    {
        if !self.started {
            return Err(FsmError::NotStarted);
        }
        proof {
            steps_keep_settled(self.table, self.run@, Event::Timeout { state: 0 }, 0, Seq::empty());
        }
        self.drain_queue()
    }

    /// Advances the clock to `now` and enqueues one timeout event for each
    /// armed timer whose deadline has passed, disarming it.
    pub fn expire_timers(&mut self, now: u64) -> (r: Result<(), FsmError>)
        requires
            old(self).inv(),
        ensures
            final(self).inv(),
            final(self).table == old(self).table,
            final(self).started == old(self).started,
            !old(self).started ==> r == Err::<(), FsmError>(FsmError::NotStarted)
                && final(self).run@ == old(self).run@,
            old(self).started ==> (final(self).run@, r) == expire_step(old(self).table, old(self).run@, now),
    {
        if !self.started {
            return Err(FsmError::NotStarted);
        }
        proof {
            steps_keep_settled(self.table, self.run@, Event::Timeout { state: 0 }, now, Seq::empty());
        }
        if now > self.run.now {
            self.run.now = now;
        }
        let ghost w0 = RunView { now: if now > old(self).run.now { now } else { old(self).run.now }, ..old(self).run@ };
        assert(self.run@ == w0);
        let snap = self.run.snapshot();
        let now = self.run.now;
        let r = expire_exec(&self.table, &mut self.run, now);
        match r {
            Ok(()) => Ok(()),
            Err(e) => {
                self.run = snap;
                self.run.queue.clear();
                assert(self.run@.queue =~= Seq::<Event>::empty());
                Err(e)
            },
        }
    }

    /// The active state of `region`, if the region exists and its machine is live.
    pub fn current_state(&self, region: usize) -> (r: Option<usize>)
        requires
            self.inv(),
        ensures
            region < self.table.n_regions() ==> r == self.run@.active[region as int],
            region >= self.table.n_regions() ==> r is None,
    {
        if region < self.run.active.len() {
            self.run.active[region]
        } else {
            None
        }
    }

    /// Whether `s` is the active state of its region.
    pub fn is_active(&self, s: usize) -> (r: bool)
        requires
            self.inv(),
        ensures
            r == (s < self.table.n_states() && self.run@.active[self.table.region_of(s as int)] == Some(s)),
    {
        if s < self.table.states.len() {
            proof {
                assert(self.table.wf_state(s as int));
            }
            self.run.active[self.table.states[s].region] == Some(s)
        } else {
            false
        }
    }

    /// The value of context variable `i`.
    pub fn var(&self, i: usize) -> (r: Option<u64>)
        ensures
            i < self.run@.ctx.len() ==> r == Some(self.run@.ctx[i as int]),
            i >= self.run@.ctx.len() ==> r is None,
    {
        if i < self.run.ctx.len() {
            Some(self.run.ctx[i])
        } else {
            None
        }
    }

    /// Everything reported to observers so far, in order.
    pub fn notifications(&self) -> (r: &Vec<Notification>)
        ensures
            r@ == self.run@.log,
    {
        &self.run.log
    }

    /// The events waiting in the queue, oldest first.
    pub fn pending_events(&self) -> (r: &Vec<Event>)
        ensures
            r@ == self.run@.queue,
    {
        &self.run.queue
    }

    /// Whether the timer of state `s` is armed.
    pub fn timer_armed(&self, s: usize) -> (r: bool)
        ensures
            r == (s < self.run@.timers.len() && self.run@.timers[s as int] is Some),
    {
        s < self.run.timers.len() && self.run.timers[s].is_some()
    }

    pub fn is_started(&self) -> (r: bool)
        ensures
            r == self.started,
    {
        self.started
    }
}

} // verus!
