use vstd::prelude::*;
use crate::table::{BuiltFsm, Candidate, Effect, FsmError, RegionDef, StateDef, TransitionDef, Trigger};

verus! {

/// Collects the description of a machine; `build` checks it and freezes it
/// into a table.
pub struct FsmBuilder {
    pub machines: usize,
    pub regions: Vec<RegionDef>,
    pub states: Vec<StateDef>,
    pub transitions: Vec<TransitionDef>,
    pub queue_capacity: usize,
    pub max_steps: usize,
    pub events_debug: bool,
}

pub open spec fn plain_state(region: usize) -> StateDef {
    StateDef { region, entry: Effect::Nothing, exit: Effect::Nothing, timer: None, sub: None, terminal: false }
}

/// `s` is a declared state whose region is declared too.
pub open spec fn known(regions: Seq<RegionDef>, states: Seq<StateDef>, s: usize) -> bool {
    &&& s < states.len()
    &&& states[s as int].region < regions.len()
}

pub open spec fn all_known(regions: Seq<RegionDef>, states: Seq<StateDef>, names: Seq<usize>) -> bool {
    forall|i: int| 0 <= i < names.len() ==> #[trigger] known(regions, states, names[i])
}

/// No state of `names` lies in region `q`.
pub open spec fn unnamed(states: Seq<StateDef>, names: Seq<usize>, q: int) -> bool {
    forall|i: int| 0 <= i < names.len() ==> states[#[trigger] names[i] as int].region != q
}

/// No state after `names[i]` lies in its region.
pub open spec fn last_named(states: Seq<StateDef>, names: Seq<usize>, i: int) -> bool {
    forall|j: int| i < j < names.len() ==> states[#[trigger] names[j] as int].region != states[names[i] as int].region
}

/// The regions after making each of `names`, in order, the initial state of
/// its region.
pub open spec fn with_initials(regions: Seq<RegionDef>, states: Seq<StateDef>, names: Seq<usize>) -> Seq<RegionDef>
    decreases names.len(),
{
    if names.len() == 0 {
        regions
    } else {
        let prev = with_initials(regions, states, names.drop_last());
        let s = names.last();
        let r = states[s as int].region as int;
        prev.update(r, RegionDef { initial: Some(s), ..prev[r] })
    }
}

proof fn lemma_initials(regions: Seq<RegionDef>, states: Seq<StateDef>, names: Seq<usize>)
    requires
        all_known(regions, states, names),
    ensures
        ({
            let res = with_initials(regions, states, names);
            &&& res.len() == regions.len()
            &&& forall|q: int| 0 <= q < regions.len() ==> (#[trigger] res[q]).machine == regions[q].machine
            &&& forall|q: int| 0 <= q < regions.len() && unnamed(states, names, q) ==> #[trigger] res[q] == regions[q]
            &&& forall|i: int| 0 <= i < names.len() && #[trigger] last_named(states, names, i)
                ==> res[states[names[i] as int].region as int].initial == Some(names[i])
        }),
    decreases names.len(),
{
    if names.len() > 0 {
        let front = names.drop_last();
        let n = names.len() - 1;
        assert forall|i: int| 0 <= i < front.len() implies #[trigger] known(regions, states, front[i]) by {
            assert(front[i] == names[i]);
            assert(known(regions, states, names[i]));
        }
        lemma_initials(regions, states, front);
        assert(known(regions, states, names[n]));
        let res = with_initials(regions, states, names);
        assert forall|q: int| 0 <= q < regions.len() && unnamed(states, names, q) implies #[trigger] res[q] == regions[q] by {
            assert forall|i: int| 0 <= i < front.len() implies states[#[trigger] front[i] as int].region != q by {
                assert(front[i] == names[i]);
                assert(states[names[i] as int].region != q);
            }
            assert(unnamed(states, front, q));
            assert(states[names[n] as int].region != q);
        }
        assert forall|i: int| 0 <= i < names.len() && #[trigger] last_named(states, names, i)
            implies res[states[names[i] as int].region as int].initial == Some(names[i]) by {
            assert(known(regions, states, names[i]));
            let prev = with_initials(regions, states, front);
            if i < n {
                assert(states[names[n] as int].region != states[names[i] as int].region);
                assert forall|j: int| i < j < front.len() implies states[#[trigger] front[j] as int].region
                    != states[front[i] as int].region by {
                    assert(front[j] == names[j]);
                    assert(states[names[j] as int].region != states[names[i] as int].region);
                }
                assert(front[i] == names[i]);
                assert(last_named(states, front, i));
                assert(prev[states[names[i] as int].region as int].initial == Some(names[i]));
            }
        }
    }
}

impl FsmBuilder {
    /// An empty description with only the root machine, a queue of
    /// `queue_capacity` events and at most `max_steps` events handled per
    /// dispatch. Posting to a full queue, and a dispatch whose cascade would
    /// handle more than `max_steps` events (such as actions that keep posting
    /// each other), both end that dispatch with `QueueOverflow` and empty the
    /// queue.
    pub fn new(queue_capacity: usize, max_steps: usize) -> (b: Self)
        ensures
            b.machines == 1,
            b.regions@ == Seq::<RegionDef>::empty(),
            b.states@ == Seq::<StateDef>::empty(),
            b.transitions@.len() == 0,
            b.queue_capacity == queue_capacity,
            b.max_steps == max_steps,
            !b.events_debug,
    {
        FsmBuilder {
            machines: 1,
            regions: Vec::new(),
            states: Vec::new(),
            transitions: Vec::new(),
            queue_capacity,
            max_steps,
            events_debug: false,
        }
    }

    /// Declares a region of `machine` with no initial state yet; returns its index.
    pub fn region(&mut self, machine: usize) -> (r: usize)
        requires
            old(self).regions@.len() < usize::MAX,
        ensures
            r == old(self).regions@.len(),
            final(self).regions@ == old(self).regions@.push(RegionDef { machine, initial: None }),
            final(self).states@ == old(self).states@,
            final(self).transitions@ == old(self).transitions@,
            final(self).machines == old(self).machines,
            final(self).queue_capacity == old(self).queue_capacity,
            final(self).max_steps == old(self).max_steps,
            final(self).events_debug == old(self).events_debug,
    {
        let r = self.regions.len();
        self.regions.push(RegionDef { machine, initial: None });
        r
    }

    /// Declares a plain state in `region`; returns its index.
    pub fn state(&mut self, region: usize) -> (s: usize)
        requires
            old(self).states@.len() < usize::MAX,
        ensures
            s == old(self).states@.len(),
            final(self).states@ == old(self).states@.push(plain_state(region)),
            final(self).regions@ == old(self).regions@,
            final(self).transitions@ == old(self).transitions@,
            final(self).machines == old(self).machines,
            final(self).queue_capacity == old(self).queue_capacity,
            final(self).max_steps == old(self).max_steps,
            final(self).events_debug == old(self).events_debug,
    {
        let s = self.states.len();
        self.states.push(plain_state_exec(region));
        s
    }

    /// Declares a state in `region` that hosts a new submachine; returns the
    /// state's index and the new machine's index.
    pub fn sub_machine(&mut self, region: usize) -> (ids: (usize, usize))
        requires
            old(self).states@.len() < usize::MAX,
            old(self).machines < usize::MAX,
        ensures
            ids.0 == old(self).states@.len(),
            ids.1 == old(self).machines,
            final(self).machines == old(self).machines + 1,
            final(self).states@ == old(self).states@.push(
                StateDef { sub: Some(ids.1), ..plain_state(region) },
            ),
            final(self).regions@ == old(self).regions@,
            final(self).transitions@ == old(self).transitions@,
            final(self).queue_capacity == old(self).queue_capacity,
            final(self).max_steps == old(self).max_steps,
            final(self).events_debug == old(self).events_debug,
    {
        let s = self.states.len();
        let m = self.machines;
        let mut sd = plain_state_exec(region);
        sd.sub = Some(m);
        self.states.push(sd);
        self.machines = m + 1;
        (s, m)
    }

    /// Replaces the description of an existing state.
    fn update_state(&mut self, s: usize, sd: StateDef)
        requires
            s < old(self).states@.len(),
        ensures
            final(self).states@ == old(self).states@.update(s as int, sd),
            final(self).regions@ == old(self).regions@,
            final(self).transitions@ == old(self).transitions@,
            final(self).machines == old(self).machines,
            final(self).queue_capacity == old(self).queue_capacity,
            final(self).max_steps == old(self).max_steps,
            final(self).events_debug == old(self).events_debug,
    {
        self.states.set(s, sd);
    }

    /// Sets the hook run when `s` is entered.
    pub fn on_entry(&mut self, s: usize, e: Effect) -> (r: Result<(), FsmError>)
        ensures
            r is Ok <==> s < old(self).states@.len(),
            r is Err ==> r == Err::<(), FsmError>(FsmError::UnknownTransitionTarget) && *final(self) == *old(self),
            r is Ok ==> final(self).states@ == old(self).states@.update(s as int, StateDef { entry: e, ..old(self).states@[s as int] }),
            final(self).regions@ == old(self).regions@,
            final(self).transitions@ == old(self).transitions@,
            final(self).machines == old(self).machines,
            final(self).queue_capacity == old(self).queue_capacity,
            final(self).max_steps == old(self).max_steps,
            final(self).events_debug == old(self).events_debug,
    {
        if s >= self.states.len() {
            return Err(FsmError::UnknownTransitionTarget);
        }
        let mut sd = self.states[s];
        sd.entry = e;
        self.update_state(s, sd);
        Ok(())
    }

    /// Sets the hook run when `s` is exited.
    pub fn on_exit(&mut self, s: usize, e: Effect) -> (r: Result<(), FsmError>)
        ensures
            r is Ok <==> s < old(self).states@.len(),
            r is Err ==> r == Err::<(), FsmError>(FsmError::UnknownTransitionTarget) && *final(self) == *old(self),
            r is Ok ==> final(self).states@ == old(self).states@.update(s as int, StateDef { exit: e, ..old(self).states@[s as int] }),
            final(self).regions@ == old(self).regions@,
            final(self).transitions@ == old(self).transitions@,
            final(self).machines == old(self).machines,
            final(self).queue_capacity == old(self).queue_capacity,
            final(self).max_steps == old(self).max_steps,
            final(self).events_debug == old(self).events_debug,
    {
        if s >= self.states.len() {
            return Err(FsmError::UnknownTransitionTarget);
        }
        let mut sd = self.states[s];
        sd.exit = e;
        self.update_state(s, sd);
        Ok(())
    }

    /// Gives `s` a timer of `duration`, armed on each entry into `s`.
    pub fn timer(&mut self, s: usize, duration: u64) -> (r: Result<(), FsmError>)
        ensures
            r is Ok <==> s < old(self).states@.len(),
            r is Err ==> r == Err::<(), FsmError>(FsmError::UnknownTransitionTarget) && *final(self) == *old(self),
            r is Ok ==> final(self).states@ == old(self).states@.update(s as int, StateDef { timer: Some(duration), ..old(self).states@[s as int] }),
            final(self).regions@ == old(self).regions@,
            final(self).transitions@ == old(self).transitions@,
            final(self).machines == old(self).machines,
            final(self).queue_capacity == old(self).queue_capacity,
            final(self).max_steps == old(self).max_steps,
            final(self).events_debug == old(self).events_debug,
    {
        if s >= self.states.len() {
            return Err(FsmError::UnknownTransitionTarget);
        }
        let mut sd = self.states[s];
        sd.timer = Some(duration);
        self.update_state(s, sd);
        Ok(())
    }

    /// Marks `s` as a terminal state of its machine.
    pub fn terminal(&mut self, s: usize) -> (r: Result<(), FsmError>)
        ensures
            r is Ok <==> s < old(self).states@.len(),
            r is Err ==> r == Err::<(), FsmError>(FsmError::UnknownTransitionTarget) && *final(self) == *old(self),
            r is Ok ==> final(self).states@ == old(self).states@.update(s as int, StateDef { terminal: true, ..old(self).states@[s as int] }),
            final(self).regions@ == old(self).regions@,
            final(self).transitions@ == old(self).transitions@,
            final(self).machines == old(self).machines,
            final(self).queue_capacity == old(self).queue_capacity,
            final(self).max_steps == old(self).max_steps,
            final(self).events_debug == old(self).events_debug,
    {
        if s >= self.states.len() {
            return Err(FsmError::UnknownTransitionTarget);
        }
        let mut sd = self.states[s];
        sd.terminal = true;
        self.update_state(s, sd);
        Ok(())
    }

    /// Makes `s` the initial state of its region.
    pub fn initial_state(&mut self, s: usize) -> (r: Result<(), FsmError>)
        ensures
            r is Ok <==> s < old(self).states@.len() && old(self).states@[s as int].region < old(self).regions@.len(),
            r is Err ==> r == Err::<(), FsmError>(FsmError::UnknownTransitionTarget) && *final(self) == *old(self),
            r is Ok ==> final(self).regions@ == old(self).regions@.update(
                old(self).states@[s as int].region as int,
                RegionDef { initial: Some(s), ..old(self).regions@[old(self).states@[s as int].region as int] },
            ),
            final(self).states@ == old(self).states@,
            final(self).transitions@ == old(self).transitions@,
            final(self).machines == old(self).machines,
            final(self).queue_capacity == old(self).queue_capacity,
            final(self).max_steps == old(self).max_steps,
            final(self).events_debug == old(self).events_debug,
    {
        if s >= self.states.len() {
            return Err(FsmError::UnknownTransitionTarget);
        }
        let region = self.states[s].region;
        if region >= self.regions.len() {
            return Err(FsmError::UnknownTransitionTarget);
        }
        let mut rd = self.regions[region];
        rd.initial = Some(s);
        self.regions.set(region, rd);
        Ok(())
    }

    /// Makes each of `states`, in order, the initial state of its region: the
    /// last one named for a region wins and regions not named are left as
    /// they are. When some named state (or its region) is unknown nothing
    /// changes.
    pub fn initial_states(&mut self, states: &[usize]) -> (r: Result<(), FsmError>)
        ensures
            r is Ok <==> all_known(old(self).regions@, old(self).states@, states@),
            r is Err ==> r == Err::<(), FsmError>(FsmError::UnknownTransitionTarget) && *final(self) == *old(self),
            r is Ok ==> final(self).regions@ == with_initials(old(self).regions@, old(self).states@, states@),
            r is Ok ==> final(self).regions@.len() == old(self).regions@.len(),
            r is Ok ==> forall|q: int| 0 <= q < old(self).regions@.len() ==>
                (#[trigger] final(self).regions@[q]).machine == old(self).regions@[q].machine,
            r is Ok ==> forall|q: int| 0 <= q < old(self).regions@.len() && unnamed(old(self).states@, states@, q)
                ==> #[trigger] final(self).regions@[q] == old(self).regions@[q],
            r is Ok ==> forall|i: int| 0 <= i < states@.len() && #[trigger] last_named(old(self).states@, states@, i)
                ==> final(self).regions@[old(self).states@[states@[i] as int].region as int].initial == Some(states@[i]),
            final(self).states@ == old(self).states@,
            final(self).transitions@ == old(self).transitions@,
            final(self).machines == old(self).machines,
            final(self).queue_capacity == old(self).queue_capacity,
            final(self).max_steps == old(self).max_steps,
            final(self).events_debug == old(self).events_debug,
    {
        let mut i: usize = 0;
        while i < states.len()
            invariant
                i <= states@.len(),
                forall|q: int| 0 <= q < i ==> #[trigger] known(self.regions@, self.states@, states@[q]),
            decreases states@.len() - i,
        {
            let s = states[i];
            if s >= self.states.len() || self.states[s].region >= self.regions.len() {
                assert(!known(self.regions@, self.states@, states@[i as int]));
                return Err(FsmError::UnknownTransitionTarget);
            }
            i = i + 1;
        }
        let ghost before = *self;
        let mut i: usize = 0;
        while i < states.len()
            invariant
                i <= states@.len(),
                all_known(before.regions@, before.states@, states@),
                self.states@ == before.states@,
                self.transitions@ == before.transitions@,
                self.machines == before.machines,
                self.queue_capacity == before.queue_capacity,
                self.max_steps == before.max_steps,
                self.events_debug == before.events_debug,
                self.regions@ == with_initials(before.regions@, before.states@, states@.take(i as int)),
            decreases states@.len() - i,
        {
            let s = states[i];
            proof {
                assert(known(before.regions@, before.states@, states@[i as int]));
                assert forall|q: int| 0 <= q < i implies #[trigger] known(before.regions@, before.states@, states@.take(i as int)[q]) by {
                    assert(states@.take(i as int)[q] == states@[q]);
                    assert(known(before.regions@, before.states@, states@[q]));
                }
                lemma_initials(before.regions@, before.states@, states@.take(i as int));
            }
            let region = self.states[s].region;
            let mut rd = self.regions[region];
            rd.initial = Some(s);
            self.regions.set(region, rd);
            assert(states@.take(i + 1).drop_last() =~= states@.take(i as int));
            assert(states@.take(i + 1).last() == s);
            i = i + 1;
        }
        proof {
            assert(states@.take(states@.len() as int) =~= states@);
            lemma_initials(before.regions@, before.states@, states@);
        }
        Ok(())
    }

    /// Records dequeued events in the notification stream of the built machine.
    pub fn events_debug(&mut self)
        ensures
            final(self).events_debug,
            final(self).states@ == old(self).states@,
            final(self).regions@ == old(self).regions@,
            final(self).transitions@ == old(self).transitions@,
            final(self).machines == old(self).machines,
            final(self).queue_capacity == old(self).queue_capacity,
            final(self).max_steps == old(self).max_steps,
    {
        self.events_debug = true;
    }

    /// Declares that `source`, on `trigger`, tries `candidates` in order;
    /// returns the transition's index.
    pub fn transition(&mut self, source: usize, trigger: Trigger, candidates: Vec<Candidate>) -> (k: usize)
        ensures
            k == old(self).transitions@.len(),
            final(self).transitions@.len() == old(self).transitions@.len() + 1,
            final(self).transitions@.last() == (TransitionDef { source, trigger, candidates }),
            final(self).transitions@.drop_last() == old(self).transitions@,
            final(self).states@ == old(self).states@,
            final(self).regions@ == old(self).regions@,
            final(self).machines == old(self).machines,
            final(self).queue_capacity == old(self).queue_capacity,
            final(self).max_steps == old(self).max_steps,
            final(self).events_debug == old(self).events_debug,
    {
        let k = self.transitions.len();
        self.transitions.push(TransitionDef { source, trigger, candidates });
        k
    }

    /// Checks the description and freezes it into a table.
    pub fn build(self) -> (r: Result<BuiltFsm, FsmError>)
        ensures
            ({
                let t = BuiltFsm {
                    machines: self.machines,
                    regions: self.regions,
                    states: self.states,
                    transitions: self.transitions,
                    queue_capacity: self.queue_capacity,
                    max_steps: self.max_steps,
                    events_debug: self.events_debug,
                };
                &&& r is Ok <==> t.wf()
                &&& r is Ok ==> r->Ok_0 == t
                &&& r == Err::<BuiltFsm, FsmError>(FsmError::NoInitialState) <==> !t.all_initial()
                &&& r == Err::<BuiltFsm, FsmError>(FsmError::UnknownTransitionTarget) <==> t.all_initial() && !t.wf()
            }),
    {
        let t = BuiltFsm {
            machines: self.machines,
            regions: self.regions,
            states: self.states,
            transitions: self.transitions,
            queue_capacity: self.queue_capacity,
            max_steps: self.max_steps,
            events_debug: self.events_debug,
        };
        match t.validate() {
            Ok(()) => Ok(t),
            Err(e) => Err(e),
        }
    }
}

fn plain_state_exec(region: usize) -> (sd: StateDef)
    ensures
        sd == plain_state(region),
{
    StateDef { region, entry: Effect::Nothing, exit: Effect::Nothing, timer: None, sub: None, terminal: false }
}

} // verus!
