use vstd::prelude::*;

verus! {

/// Something that happens to the machine: a signal posted by a caller or an
/// action, or the expiry of the timer of a state.
#[derive(Clone, Copy, Debug, PartialEq, Eq, Structural)]
pub enum Event {
    Signal { kind: u64, value: u64 },
    Timeout { state: usize },
}

/// What a transition reacts to.
#[derive(Clone, Copy, Debug, PartialEq, Eq, Structural)]
pub enum Trigger {
    /// A signal of the given kind.
    Signal(u64),
    /// The expiry of the source state's own timer.
    Timeout,
    /// The event just forwarded brought the submachine hosted by the source
    /// state into its terminal states.
    Completed,
}

/// A condition on the event, the shared context and the active states.
#[derive(Clone, Copy, Debug, PartialEq, Eq, Structural)]
pub enum Guard {
    Always,
    /// The context variable is at least the bound.
    VarAtLeast { var: usize, bound: u64 },
    /// The context variable is below the bound.
    VarBelow { var: usize, bound: u64 },
    /// The event is a signal carrying this value.
    ValueIs(u64),
    /// The state is active in its region.
    InState(usize),
}

/// A hook: an effect on the shared context or the event queue.
#[derive(Clone, Copy, Debug, PartialEq, Eq, Structural)]
pub enum Effect {
    Nothing,
    /// Adds one to a context variable; fails on overflow or a missing variable.
    Increment(usize),
    /// Sets a context variable; fails on a missing variable.
    Assign { var: usize, value: u64 },
    /// Appends an event to the queue.
    Post(Event),
}

/// The errors of the engine and of its assembly.
#[derive(Clone, Copy, Debug, PartialEq, Eq, Structural)]
pub enum FsmError {
    NotStarted,
    AlreadyStarted,
    QueueOverflow,
    TimerAlreadyArmed,
    HookFailed,
    /// A transition, hook or binding names a state, region or machine that
    /// does not exist, or a target outside the source's region.
    UnknownTransitionTarget,
    /// A region was declared without an initial state.
    NoInitialState,
}

/// One guarded alternative of a transition.
#[derive(Clone, Copy, Debug, PartialEq, Eq, Structural)]
pub struct Candidate {
    pub guard: Guard,
    pub action: Effect,
    pub target: usize,
}

/// The transitions out of `source` on `trigger`, tried in order.
#[derive(Clone, Debug)]
pub struct TransitionDef {
    pub source: usize,
    pub trigger: Trigger,
    pub candidates: Vec<Candidate>,
}

#[derive(Clone, Copy, Debug, PartialEq, Eq, Structural)]
pub struct StateDef {
    pub region: usize,
    pub entry: Effect,
    pub exit: Effect,
    /// Duration of the state's timer, armed on entry.
    pub timer: Option<u64>,
    /// The submachine hosted by this state.
    pub sub: Option<usize>,
    /// Whether this state signals completion of its machine.
    pub terminal: bool,
}

#[derive(Clone, Copy, Debug, PartialEq, Eq, Structural)]
pub struct RegionDef {
    pub machine: usize,
    pub initial: Option<usize>,
}

/// The validated, immutable transition table. Machine 0 is the root; every
/// other machine is hosted by exactly one state of a machine with a smaller
/// index.
#[derive(Clone, Debug)]
pub struct BuiltFsm {
    pub machines: usize,
    pub regions: Vec<RegionDef>,
    pub states: Vec<StateDef>,
    pub transitions: Vec<TransitionDef>,
    pub queue_capacity: usize,
    pub max_steps: usize,
    pub events_debug: bool,
}

impl BuiltFsm {
    pub open spec fn n_regions(&self) -> nat {
        self.regions@.len()
    }

    pub open spec fn n_states(&self) -> nat {
        self.states@.len()
    }

    pub open spec fn region_of(&self, s: int) -> int {
        self.states@[s].region as int
    }

    pub open spec fn machine_of(&self, s: int) -> int {
        self.regions@[self.region_of(s)].machine as int
    }

    pub open spec fn valid_state(&self, s: int) -> bool {
        &&& 0 <= s < self.n_states()
        &&& self.region_of(s) < self.n_regions()
    }

    pub open spec fn wf_region(&self, r: int) -> bool {
        let rd = self.regions@[r];
        &&& rd.machine < self.machines
        &&& rd.initial matches Some(s) && 0 <= s < self.n_states() && self.region_of(s as int) == r
    }

    pub open spec fn wf_state(&self, s: int) -> bool {
        let sd = self.states@[s];
        &&& sd.region < self.n_regions()
        &&& sd.sub matches Some(m) ==> self.machine_of(s) < m < self.machines
    }

    pub open spec fn wf_transition(&self, k: int) -> bool {
        let td = self.transitions@[k];
        &&& td.source < self.n_states()
        &&& forall|j: int| 0 <= j < td.candidates@.len() ==> {
            let tg = #[trigger] td.candidates@[j].target;
            &&& tg < self.n_states()
            &&& self.states@[tg as int].region == self.states@[td.source as int].region
        }
    }

    /// Every reference in the table is in range, every region has an initial
    /// state of its own, every transition stays in its region and every
    /// submachine lies deeper than its host.
    pub open spec fn wf(&self) -> bool {
        &&& 0 < self.machines
        &&& forall|r: int| 0 <= r < self.n_regions() ==> #[trigger] self.wf_region(r)
        &&& forall|s: int| 0 <= s < self.n_states() ==> #[trigger] self.wf_state(s)
        &&& forall|k: int| 0 <= k < self.transitions@.len() ==> #[trigger] self.wf_transition(k)
    }

    pub open spec fn all_initial(&self) -> bool {
        forall|r: int| 0 <= r < self.n_regions() ==> (#[trigger] self.regions@[r]).initial is Some
    }

    /// Checks the table: `NoInitialState` when some region lacks an initial
    /// state, else `UnknownTransitionTarget` when some other reference is
    /// broken.
    pub fn validate(&self) -> (r: Result<(), FsmError>)
        ensures
            r is Ok <==> self.wf(),
            r == Err::<(), FsmError>(FsmError::NoInitialState) <==> !self.all_initial(),
            r == Err::<(), FsmError>(FsmError::UnknownTransitionTarget) <==> self.all_initial()
                && !self.wf(),
    {
        let nr = self.regions.len();
        let ns = self.states.len();
        let mut i: usize = 0;
        while i < nr
            invariant
                nr == self.n_regions(),
                i <= nr,
                forall|r: int| 0 <= r < i ==> (#[trigger] self.regions@[r]).initial is Some,
            decreases nr - i,
        {
            if self.regions[i].initial.is_none() {
                assert(!self.wf_region(i as int));
                return Err(FsmError::NoInitialState);
            }
            i = i + 1;
        }
        if self.machines == 0 {
            return Err(FsmError::UnknownTransitionTarget);
        }
        let mut i: usize = 0;
        while i < nr
            invariant
                nr == self.n_regions(),
                ns == self.n_states(),
                i <= nr,
                self.all_initial(),
                0 < self.machines,
                forall|r: int| 0 <= r < i ==> #[trigger] self.wf_region(r),
            decreases nr - i,
        {
            let rd = self.regions[i];
            if rd.machine >= self.machines {
                assert(!self.wf_region(i as int));
                return Err(FsmError::UnknownTransitionTarget);
            }
            match rd.initial {
                Some(s) => {
                    if s >= ns || self.states[s].region != i {
                        assert(!self.wf_region(i as int));
                        return Err(FsmError::UnknownTransitionTarget);
                    }
                },
                None => {
                    return Err(FsmError::NoInitialState);
                },
            }
            i = i + 1;
        }
        let mut i: usize = 0;
        while i < ns
            invariant
                nr == self.n_regions(),
                ns == self.n_states(),
                i <= ns,
                self.all_initial(),
                0 < self.machines,
                forall|r: int| 0 <= r < nr ==> #[trigger] self.wf_region(r),
                forall|s: int| 0 <= s < i ==> #[trigger] self.wf_state(s),
            decreases ns - i,
        {
            let sd = self.states[i];
            if sd.region >= nr {
                assert(!self.wf_state(i as int));
                return Err(FsmError::UnknownTransitionTarget);
            }
            match sd.sub {
                Some(m) => {
                    if m >= self.machines || self.regions[sd.region].machine >= m {
                        assert(!self.wf_state(i as int));
                        return Err(FsmError::UnknownTransitionTarget);
                    }
                },
                None => {},
            }
            i = i + 1;
        }
        let nt = self.transitions.len();
        let mut k: usize = 0;
        while k < nt
            invariant
                nr == self.n_regions(),
                ns == self.n_states(),
                nt == self.transitions@.len(),
                k <= nt,
                self.all_initial(),
                0 < self.machines,
                forall|r: int| 0 <= r < nr ==> #[trigger] self.wf_region(r),
                forall|s: int| 0 <= s < ns ==> #[trigger] self.wf_state(s),
                forall|q: int| 0 <= q < k ==> #[trigger] self.wf_transition(q),
            decreases nt - k,
        {
            let td = &self.transitions[k];
            if td.source >= ns {
                assert(!self.wf_transition(k as int));
                return Err(FsmError::UnknownTransitionTarget);
            }
            let src_region = self.states[td.source].region;
            let nc = td.candidates.len();
            let mut j: usize = 0;
            while j < nc
                invariant
                    ns == self.n_states(),
                    k < nt,
                    nt == self.transitions@.len(),
                    self.all_initial(),
                    td == self.transitions@[k as int],
                    td.source < ns,
                    src_region == self.states@[td.source as int].region,
                    nc == td.candidates@.len(),
                    j <= nc,
                    forall|q: int| 0 <= q < j ==> {
                        let tg = #[trigger] td.candidates@[q].target;
                        &&& tg < ns
                        &&& self.states@[tg as int].region == src_region
                    },
                decreases nc - j,
            {
                let tg = td.candidates[j].target;
                if tg >= ns || self.states[tg].region != src_region {
                    assert(!self.wf_transition(k as int));
                    return Err(FsmError::UnknownTransitionTarget);
                }
                j = j + 1;
            }
            k = k + 1;
        }
        Ok(())
    }

    /// Number of machines, the root included.
    pub fn machine_count(&self) -> (r: usize)
        ensures
            r == self.machines,
    {
        self.machines
    }

    /// Number of regions over all machines.
    pub fn region_count(&self) -> (r: usize)
        ensures
            r == self.n_regions(),
    {
        self.regions.len()
    }

    /// Number of states over all machines.
    pub fn state_count(&self) -> (r: usize)
        ensures
            r == self.n_states(),
    {
        self.states.len()
    }

    /// Whether dequeued events are recorded in the notification stream.
    pub fn events_debug(&self) -> (r: bool)
        ensures
            r == self.events_debug,
    {
        self.events_debug
    }
}

} // verus!
