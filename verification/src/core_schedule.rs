use vstd::prelude::*;

verus! {

/// The names of the default schedules of an app.
#[derive(Debug, Clone, Copy, PartialEq, Eq, Structural, Hash)]
pub enum CoreSchedule {
    /// Runs once when the app starts.
    Startup,
    /// Holds the app logic evaluated on each update.
    Main,
    /// Controls which schedules run.
    Outer,
    /// Holds systems that only run after a fixed period of time has elapsed.
    FixedTimestep,
}

/// The names of the default system sets of the main schedule, in the order they run. Each
/// `*Flush` set holds the copy of `apply_system_buffers` that runs right after the set before it.
#[derive(Debug, Clone, Copy, PartialEq, Eq, Structural, Hash)]
pub enum CoreSet {
    First,
    FirstFlush,
    FixedTimestep,
    FixedTimestepFlush,
    PreUpdate,
    PreUpdateFlush,
    StateTransitions,
    StateTransitionsFlush,
    Update,
    UpdateFlush,
    PostUpdate,
    PostUpdateFlush,
    Last,
    LastFlush,
}

/// The names of the default system sets of the startup schedule, in the order they run.
#[derive(Debug, Clone, Copy, PartialEq, Eq, Structural, Hash)]
pub enum StartupSet {
    PreStartup,
    PreStartupFlush,
    Startup,
    StartupFlush,
    PostStartup,
    PostStartupFlush,
}

/// The systems the default schedules are built from.
#[derive(Debug, Clone, Copy, PartialEq, Eq, Structural)]
pub enum ScheduleSystem {
    /// Applies the command buffers of the systems that ran before it.
    ApplySystemBuffers,
    /// Runs the startup schedule the first time, then the main schedule.
    OuterLoop,
}

/// The ordering of a system set: the sets it runs before and after.
#[derive(Debug)]
pub struct SetConfig<S> {
    pub set: S,
    pub before: Vec<S>,
    pub after: Vec<S>,
}

/// A schedule: its systems, each in a set or in none, and the ordering of its sets.
#[derive(Debug)]
pub struct Schedule<S> {
    pub systems: Vec<(ScheduleSystem, Option<S>)>,
    pub sets: Vec<SetConfig<S>>,
}

impl<S> Schedule<S> {
    /// An empty schedule.
    pub fn new() -> (s: Self)
        ensures
            s.systems@.len() == 0,
            s.sets@.len() == 0,
    {
        Schedule { systems: Vec::new(), sets: Vec::new() }
    }

    /// Adds a system, in `set` when given.
    pub fn add_system(&mut self, system: ScheduleSystem, set: Option<S>)
        ensures
            final(self).systems@ == old(self).systems@.push((system, set)),
            final(self).sets@ == old(self).sets@,
    {
        self.systems.push((system, set));
    }

    /// Configures the ordering of a set.
    pub fn configure_set(&mut self, config: SetConfig<S>)
        ensures
            final(self).systems@ == old(self).systems@,
            final(self).sets@ == old(self).sets@.push(config),
    {
        self.sets.push(config);
    }
}

/// A set configured to run after the sets in `after` and before those in `before`.
fn set_config<S>(set: S, after: Option<S>, before: S) -> (c: SetConfig<S>)
    ensures
        c.set == set,
        c.before@ == seq![before],
        c.after@ == match after {
            Some(a) => seq![a],
            None => Seq::<S>::empty(),
        },
{
    let mut after_list = Vec::new();
    if let Some(a) = after {
        after_list.push(a);
    }
    let mut before_list = Vec::new();
    before_list.push(before);
    SetConfig { set, before: before_list, after: after_list }
}

/// Whether `s` orders set `a` before set `b`: `a` is configured to run before `b`, or `b` to run
/// after `a`.
pub open spec fn orders<S>(s: Schedule<S>, a: S, b: S) -> bool {
    exists|i: int|
        0 <= i < s.sets@.len() && {
            let c = #[trigger] s.sets@[i];
            (c.set == a && c.before@.contains(b)) || (c.set == b && c.after@.contains(a))
        }
}

/// Whether `s` holds a copy of `apply_system_buffers` in set `a`.
pub open spec fn flushes_in<S>(s: Schedule<S>, a: S) -> bool {
    s.systems@.contains((ScheduleSystem::ApplySystemBuffers, Some(a)))
}

/// The position of each core set in the order they run.
pub open spec fn core_set_rank(s: CoreSet) -> int {
    match s {
        CoreSet::First => 0,
        CoreSet::FirstFlush => 1,
        CoreSet::FixedTimestep => 2,
        CoreSet::FixedTimestepFlush => 3,
        CoreSet::PreUpdate => 4,
        CoreSet::PreUpdateFlush => 5,
        CoreSet::StateTransitions => 6,
        CoreSet::StateTransitionsFlush => 7,
        CoreSet::Update => 8,
        CoreSet::UpdateFlush => 9,
        CoreSet::PostUpdate => 10,
        CoreSet::PostUpdateFlush => 11,
        CoreSet::Last => 12,
        CoreSet::LastFlush => 13,
    }
}

/// The position of each startup set in the order they run.
pub open spec fn startup_set_rank(s: StartupSet) -> int {
    match s {
        StartupSet::PreStartup => 0,
        StartupSet::PreStartupFlush => 1,
        StartupSet::Startup => 2,
        StartupSet::StartupFlush => 3,
        StartupSet::PostStartup => 4,
        StartupSet::PostStartupFlush => 5,
    }
}

proof fn lemma_core_rank_injective()
    ensures
        forall|x: CoreSet, y: CoreSet| #[trigger] core_set_rank(x) == #[trigger] core_set_rank(y) ==> x == y,
        forall|x: CoreSet| 0 <= #[trigger] core_set_rank(x) < 14,
{
}

proof fn lemma_startup_rank_injective()
    ensures
        forall|x: StartupSet, y: StartupSet| #[trigger] startup_set_rank(x) == #[trigger] startup_set_rank(y) ==> x == y,
        forall|x: StartupSet| 0 <= #[trigger] startup_set_rank(x) < 6,
{
}

/// Whether a startup set is one of the `*Flush` sets.
pub open spec fn is_startup_flush(s: StartupSet) -> bool {
    startup_set_rank(s) % 2 == 1
}

/// Whether a core set is one of the `*Flush` sets.
pub open spec fn is_core_flush(s: CoreSet) -> bool {
    core_set_rank(s) % 2 == 1
}

impl CoreSet {
    /// Sets up the base structure of the main schedule: a copy of `apply_system_buffers` in each
    /// `*Flush` set, and each set configured to run after the flush before it and before its own
    /// flush.
    pub fn base_schedule() -> (s: Schedule<CoreSet>)
        ensures
            s.systems@ == seq![
                (ScheduleSystem::ApplySystemBuffers, Some(CoreSet::FirstFlush)),
                (ScheduleSystem::ApplySystemBuffers, Some(CoreSet::FixedTimestepFlush)),
                (ScheduleSystem::ApplySystemBuffers, Some(CoreSet::PreUpdateFlush)),
                (ScheduleSystem::ApplySystemBuffers, Some(CoreSet::StateTransitionsFlush)),
                (ScheduleSystem::ApplySystemBuffers, Some(CoreSet::UpdateFlush)),
                (ScheduleSystem::ApplySystemBuffers, Some(CoreSet::PostUpdateFlush)),
                (ScheduleSystem::ApplySystemBuffers, Some(CoreSet::LastFlush)),
            ],
            s.sets@.len() == 7,
            forall|i: int| 0 <= i < 7 ==> {
                let c = #[trigger] s.sets@[i];
                &&& core_set_rank(c.set) == 2 * i
                &&& c.before@.len() == 1
                &&& core_set_rank(c.before@[0]) == 2 * i + 1
                &&& c.after@.len() == if i == 0 { 0int } else { 1int }
                &&& i > 0 ==> core_set_rank(c.after@[0]) == 2 * i - 1
            },
            forall|a: CoreSet, b: CoreSet| core_set_rank(b) == core_set_rank(a) + 1 ==> #[trigger] orders(s, a, b),
            forall|a: CoreSet| is_core_flush(a) ==> #[trigger] flushes_in(s, a),
    {
        let mut schedule = Schedule::new();
        schedule.add_system(ScheduleSystem::ApplySystemBuffers, Some(CoreSet::FirstFlush));
        schedule.add_system(ScheduleSystem::ApplySystemBuffers, Some(CoreSet::FixedTimestepFlush));
        schedule.add_system(ScheduleSystem::ApplySystemBuffers, Some(CoreSet::PreUpdateFlush));
        schedule.add_system(ScheduleSystem::ApplySystemBuffers, Some(CoreSet::StateTransitionsFlush));
        schedule.add_system(ScheduleSystem::ApplySystemBuffers, Some(CoreSet::UpdateFlush));
        schedule.add_system(ScheduleSystem::ApplySystemBuffers, Some(CoreSet::PostUpdateFlush));
        schedule.add_system(ScheduleSystem::ApplySystemBuffers, Some(CoreSet::LastFlush));

        schedule.configure_set(set_config(CoreSet::First, None, CoreSet::FirstFlush));
        schedule.configure_set(set_config(CoreSet::FixedTimestep, Some(CoreSet::FirstFlush), CoreSet::FixedTimestepFlush));
        schedule.configure_set(set_config(CoreSet::PreUpdate, Some(CoreSet::FixedTimestepFlush), CoreSet::PreUpdateFlush));
        schedule.configure_set(set_config(CoreSet::StateTransitions, Some(CoreSet::PreUpdateFlush), CoreSet::StateTransitionsFlush));
        schedule.configure_set(set_config(CoreSet::Update, Some(CoreSet::StateTransitionsFlush), CoreSet::UpdateFlush));
        schedule.configure_set(set_config(CoreSet::PostUpdate, Some(CoreSet::UpdateFlush), CoreSet::PostUpdateFlush));
        schedule.configure_set(set_config(CoreSet::Last, Some(CoreSet::PostUpdateFlush), CoreSet::LastFlush));
        proof {
            assert forall|a: CoreSet, b: CoreSet| core_set_rank(b) == core_set_rank(a) + 1 implies #[trigger] orders(schedule, a, b) by {
                let r = core_set_rank(a);
                lemma_core_rank_injective();
                if r % 2 == 0 {
                    let i = r / 2;
                    let c = schedule.sets@[i];
                    assert(c.set == a);
                    assert(c.before@[0] == b);
                    assert(c.before@.contains(b));
                } else {
                    let i = (r + 1) / 2;
                    let c = schedule.sets@[i];
                    assert(c.set == b);
                    assert(c.after@[0] == a);
                    assert(c.after@.contains(a));
                }
            }
            assert forall|a: CoreSet| is_core_flush(a) implies #[trigger] flushes_in(schedule, a) by {
                let k = (core_set_rank(a) - 1) / 2;
                assert(schedule.systems@[k] == (ScheduleSystem::ApplySystemBuffers, Some(a)));
            }
        }
        schedule
    }
}

impl StartupSet {
    /// Sets up the base structure of the startup schedule: a copy of `apply_system_buffers` in
    /// each `*Flush` set, and each set configured to run after the flush before it and before its
    /// own flush.
    pub fn base_schedule() -> (s: Schedule<StartupSet>)
        ensures
            s.systems@ == seq![
                (ScheduleSystem::ApplySystemBuffers, Some(StartupSet::PreStartupFlush)),
                (ScheduleSystem::ApplySystemBuffers, Some(StartupSet::StartupFlush)),
                (ScheduleSystem::ApplySystemBuffers, Some(StartupSet::PostStartupFlush)),
            ],
            s.sets@.len() == 3,
            forall|i: int| 0 <= i < 3 ==> {
                let c = #[trigger] s.sets@[i];
                &&& startup_set_rank(c.set) == 2 * i
                &&& c.before@.len() == 1
                &&& startup_set_rank(c.before@[0]) == 2 * i + 1
                &&& c.after@.len() == if i == 0 { 0int } else { 1int }
                &&& i > 0 ==> startup_set_rank(c.after@[0]) == 2 * i - 1
            },
            forall|a: StartupSet, b: StartupSet| startup_set_rank(b) == startup_set_rank(a) + 1 ==> #[trigger] orders(s, a, b),
            forall|a: StartupSet| is_startup_flush(a) ==> #[trigger] flushes_in(s, a),
    {
        let mut schedule = Schedule::new();
        schedule.add_system(ScheduleSystem::ApplySystemBuffers, Some(StartupSet::PreStartupFlush));
        schedule.add_system(ScheduleSystem::ApplySystemBuffers, Some(StartupSet::StartupFlush));
        schedule.add_system(ScheduleSystem::ApplySystemBuffers, Some(StartupSet::PostStartupFlush));

        schedule.configure_set(set_config(StartupSet::PreStartup, None, StartupSet::PreStartupFlush));
        schedule.configure_set(set_config(StartupSet::Startup, Some(StartupSet::PreStartupFlush), StartupSet::StartupFlush));
        schedule.configure_set(set_config(StartupSet::PostStartup, Some(StartupSet::StartupFlush), StartupSet::PostStartupFlush));
        proof {
            assert forall|a: StartupSet, b: StartupSet| startup_set_rank(b) == startup_set_rank(a) + 1 implies #[trigger] orders(schedule, a, b) by {
                let r = startup_set_rank(a);
                lemma_startup_rank_injective();
                if r % 2 == 0 {
                    let i = r / 2;
                    let c = schedule.sets@[i];
                    assert(c.set == a);
                    assert(c.before@[0] == b);
                    assert(c.before@.contains(b));
                } else {
                    let i = (r + 1) / 2;
                    let c = schedule.sets@[i];
                    assert(c.set == b);
                    assert(c.after@[0] == a);
                    assert(c.after@.contains(a));
                }
            }
            assert forall|a: StartupSet| is_startup_flush(a) implies #[trigger] flushes_in(schedule, a) by {
                let k = (startup_set_rank(a) - 1) / 2;
                assert(schedule.systems@[k] == (ScheduleSystem::ApplySystemBuffers, Some(a)));
            }
        }
        schedule
    }
}

impl CoreSchedule {
    /// The schedules the outer loop runs on one update: the startup schedule the first time
    /// (which it records in `run_at_least_once`), then always the main schedule.
    pub fn outer_loop(run_at_least_once: &mut bool) -> (r: Vec<CoreSchedule>)
        ensures
            *final(run_at_least_once),
            r@ == if *old(run_at_least_once) {
                seq![CoreSchedule::Main]
            } else {
                seq![CoreSchedule::Startup, CoreSchedule::Main]
            },
    {
        let mut r = Vec::new();
        if !*run_at_least_once {
            r.push(CoreSchedule::Startup);
            *run_at_least_once = true;
        }
        r.push(CoreSchedule::Main);
        r
    }

    /// A schedule for `CoreSchedule::Outer` that holds the outer loop system.
    pub fn outer_schedule() -> (s: Schedule<CoreSet>)
        ensures
            s.systems@ == seq![(ScheduleSystem::OuterLoop, None::<CoreSet>)],
            s.sets@.len() == 0,
    {
        let mut schedule = Schedule::new();
        schedule.add_system(ScheduleSystem::OuterLoop, None);
        schedule
    }
}

} // verus!
