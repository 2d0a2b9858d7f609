use vstd::prelude::*;
use crate::graph::{GraphNode, depends, depends_on, is_topological, lemma_filter_push, topological_order};
use crate::keymap::KeyMap;
use crate::ticks::{tick_delta, wrapping_delta};

verus! {

/// Identifies a system (or run criteria system) held by a stage.
#[derive(Debug, Clone, Copy, PartialEq, Eq, Structural)]
pub struct SystemId(pub u64);

/// The answer of a run criteria.
#[derive(Debug, Clone, Copy, PartialEq, Eq, Structural)]
pub enum ShouldRun {
    Yes,
    No,
    YesAndCheckAgain,
    NoAndCheckAgain,
}

/// What to do when a new run criteria reuses a label already in use.
#[derive(Debug, Clone, Copy, PartialEq, Eq, Structural)]
pub enum DuplicateLabelStrategy {
    Panic,
    Discard,
}

/// Where in a stage an exclusive system runs.
#[derive(Debug, Clone, Copy, PartialEq, Eq, Structural)]
pub enum InsertionPoint {
    AtStart,
    BeforeCommands,
    AtEnd,
}

/// The scheduling algorithm a stage runs its parallel systems with.
#[derive(Debug, Clone, Copy, PartialEq, Eq, Structural)]
pub enum ExecutorKind {
    SingleThreaded,
    Parallel,
}

/// The labels a system or run criteria carries, and the labels it runs before and after.
#[derive(Debug)]
pub struct LabelSet {
    pub labels: Vec<u64>,
    pub before: Vec<u64>,
    pub after: Vec<u64>,
}

impl LabelSet {
    pub fn new() -> (s: Self)
        ensures
            s.labels@ == Seq::<u64>::empty(),
            s.before@ == Seq::<u64>::empty(),
            s.after@ == Seq::<u64>::empty(),
    {
        LabelSet { labels: Vec::new(), before: Vec::new(), after: Vec::new() }
    }
}

/// A run criteria to add to a stage.
#[derive(Debug)]
pub struct RunCriteriaDescriptor {
    pub system: SystemId,
    pub label: Option<u64>,
    pub duplicate_label_strategy: DuplicateLabelStrategy,
    /// Whether the criteria takes the answer of the criteria labelled `after[0]` as input.
    pub piped: bool,
    pub before: Vec<u64>,
    pub after: Vec<u64>,
}

/// Run criteria given either in full or by the label of one already added.
#[derive(Debug)]
pub enum RunCriteriaDescriptorOrLabel {
    Descriptor(RunCriteriaDescriptor),
    Label(u64),
}

/// An exclusive system to add to a stage.
#[derive(Debug)]
pub struct ExclusiveSystemDescriptor {
    pub system: SystemId,
    pub deps: LabelSet,
    pub run_criteria: Option<RunCriteriaDescriptorOrLabel>,
    pub insertion_point: InsertionPoint,
}

/// A parallel system to add to a stage.
#[derive(Debug)]
pub struct ParallelSystemDescriptor {
    pub system: SystemId,
    pub deps: LabelSet,
    pub run_criteria: Option<RunCriteriaDescriptorOrLabel>,
}

/// A system to add to a stage.
#[derive(Debug)]
pub enum SystemDescriptor {
    Exclusive(ExclusiveSystemDescriptor),
    Parallel(ParallelSystemDescriptor),
}

/// A system held by a stage, with its ordering, its run criteria and its resolved dependencies.
#[derive(Debug)]
pub struct SystemContainer {
    pub system: SystemId,
    pub deps: LabelSet,
    pub run_criteria_index: Option<usize>,
    pub run_criteria_label: Option<u64>,
    pub dependencies: Vec<usize>,
    pub should_run: bool,
}

/// A run criteria held by a stage.
#[derive(Debug)]
pub struct RunCriteriaContainer {
    pub system: SystemId,
    pub label: Option<u64>,
    pub labels: Vec<u64>,
    pub before: Vec<u64>,
    pub after: Vec<u64>,
    pub piped: bool,
    /// For piped criteria, the index of the criteria whose answer is the input.
    pub input: usize,
    pub should_run: ShouldRun,
}

impl GraphNode for SystemContainer {
    open spec fn spec_labels(&self) -> Seq<u64> {
        self.deps.labels@
    }

    open spec fn spec_before(&self) -> Seq<u64> {
        self.deps.before@
    }

    open spec fn spec_after(&self) -> Seq<u64> {
        self.deps.after@
    }

    fn labels(&self) -> (r: &[u64]) {
        self.deps.labels.as_slice()
    }

    fn before(&self) -> (r: &[u64]) {
        self.deps.before.as_slice()
    }

    fn after(&self) -> (r: &[u64]) {
        self.deps.after.as_slice()
    }
}

impl GraphNode for RunCriteriaContainer {
    open spec fn spec_labels(&self) -> Seq<u64> {
        self.labels@
    }

    open spec fn spec_before(&self) -> Seq<u64> {
        self.before@
    }

    open spec fn spec_after(&self) -> Seq<u64> {
        self.after@
    }

    fn labels(&self) -> (r: &[u64]) {
        self.labels.as_slice()
    }

    fn before(&self) -> (r: &[u64]) {
        self.before.as_slice()
    }

    fn after(&self) -> (r: &[u64]) {
        self.after.as_slice()
    }
}

impl RunCriteriaContainer {
    /// A container for a new run criteria: it carries its own label (if any) and has not run.
    pub fn from_descriptor(descriptor: RunCriteriaDescriptor) -> (c: Self)
        ensures
            c.system == descriptor.system,
            c.label == descriptor.label,
            c.labels@ == match descriptor.label {
                Some(l) => seq![l],
                None => Seq::<u64>::empty(),
            },
            c.before == descriptor.before,
            c.after == descriptor.after,
            c.piped == descriptor.piped,
            c.input == 0,
            c.should_run == ShouldRun::Yes,
    {
        let mut labels = Vec::new();
        if let Some(l) = descriptor.label {
            labels.push(l);
        }
        RunCriteriaContainer {
            system: descriptor.system,
            label: descriptor.label,
            labels,
            before: descriptor.before,
            after: descriptor.after,
            piped: descriptor.piped,
            input: 0,
            should_run: ShouldRun::Yes,
        }
    }
}

/// A set of systems sharing (optionally) one run criteria.
#[derive(Debug)]
pub struct SystemSet {
    pub run_criteria: Option<RunCriteriaDescriptorOrLabel>,
    pub systems: Vec<SystemDescriptor>,
}

/// The run criteria of a system descriptor.
pub open spec fn descriptor_criteria(d: SystemDescriptor) -> Option<RunCriteriaDescriptorOrLabel> {
    match d {
        SystemDescriptor::Exclusive(e) => e.run_criteria,
        SystemDescriptor::Parallel(p) => p.run_criteria,
    }
}

impl SystemSet {
    pub fn new() -> (s: Self)
        ensures
            s.run_criteria is None,
            s.systems@ == Seq::<SystemDescriptor>::empty(),
    {
        SystemSet { run_criteria: None, systems: Vec::new() }
    }

    /// Whether the set has run criteria while one of its systems has its own too, which a stage
    /// does not accept.
    pub open spec fn spec_has_conflicting_criteria(&self) -> bool {
        self.run_criteria is Some && exists|i: int| 0 <= i < self.systems@.len() && descriptor_criteria(#[trigger] self.systems@[i]) is Some
    }

    pub fn has_conflicting_criteria(&self) -> (b: bool)
        ensures
            b == self.spec_has_conflicting_criteria(),
    {
        if self.run_criteria.is_none() {
            return false;
        }
        let mut i: usize = 0;
        while i < self.systems.len()
            invariant
                self.run_criteria is Some,
                i <= self.systems@.len(),
                forall|j: int| 0 <= j < i ==> descriptor_criteria(#[trigger] self.systems@[j]) is None,
            decreases self.systems@.len() - i,
        {
            let has = match &self.systems[i] {
                SystemDescriptor::Exclusive(e) => e.run_criteria.is_some(),
                SystemDescriptor::Parallel(p) => p.run_criteria.is_some(),
            };
            if has {
                assert(descriptor_criteria(self.systems@[i as int]) is Some);
                assert(self.run_criteria is Some);
                return true;
            }
            i += 1;
        }
        false
    }
}

} // verus!

verus! {

/// The four lists of systems a stage keeps.
#[derive(Debug, Clone, Copy, PartialEq, Eq, Structural)]
pub enum Group {
    AtStart,
    BeforeCommands,
    AtEnd,
    Parallel,
}

/// Why a stage could not be prepared or run.
#[derive(Debug, Clone, Copy, PartialEq, Eq, Structural)]
pub enum StageError {
    /// The stage was run on a world other than the one it first ran on.
    WrongWorld,
    /// A new run criteria reused a label already in use, and asked for an error when that happens.
    DuplicateRunCriteriaLabel(u64),
    /// The ordering constraints of a group, or of the run criteria, form a cycle.
    DependencyCycle(Option<Group>),
    /// A piped run criteria names an input label no run criteria carries.
    MissingPipeInput(usize),
    /// A system names a run criteria label no run criteria carries.
    MissingRunCriteria(u64),
}

/// Stores systems and run criteria, and decides in what order and when they run.
pub struct SystemStage {
    pub world_id: Option<u64>,
    pub executor: ExecutorKind,
    pub stage_run_criteria: Option<SystemId>,
    pub run_criteria: Vec<RunCriteriaContainer>,
    pub exclusive_at_start: Vec<SystemContainer>,
    pub exclusive_before_commands: Vec<SystemContainer>,
    pub exclusive_at_end: Vec<SystemContainer>,
    pub parallel: Vec<SystemContainer>,
    pub systems_modified: bool,
    pub executor_modified: bool,
    pub uninitialized_run_criteria: Vec<(usize, DuplicateLabelStrategy)>,
    pub uninitialized_at_start: Vec<usize>,
    pub uninitialized_before_commands: Vec<usize>,
    pub uninitialized_at_end: Vec<usize>,
    pub uninitialized_parallel: Vec<usize>,
    pub last_tick_check: u32,
    pub apply_buffers: bool,
}

/// The run criteria index a new system gets: that of its own new run criteria, none when it
/// names one by label, otherwise the default.
pub open spec fn resolved_index(rc: Option<RunCriteriaDescriptorOrLabel>, default: Option<usize>, criteria_len: nat) -> Option<usize> {
    match rc {
        Some(RunCriteriaDescriptorOrLabel::Descriptor(_)) => Some(criteria_len as usize),
        Some(RunCriteriaDescriptorOrLabel::Label(_)) => None,
        None => default,
    }
}

/// The run criteria label a new system records.
pub open spec fn resolved_label(rc: Option<RunCriteriaDescriptorOrLabel>) -> Option<u64> {
    match rc {
        Some(RunCriteriaDescriptorOrLabel::Descriptor(d)) => d.label,
        Some(RunCriteriaDescriptorOrLabel::Label(l)) => Some(l),
        None => None,
    }
}

/// The group a system descriptor goes to.
pub open spec fn target_group(d: SystemDescriptor) -> Group {
    match d {
        SystemDescriptor::Exclusive(e) => match e.insertion_point {
            InsertionPoint::AtStart => Group::AtStart,
            InsertionPoint::BeforeCommands => Group::BeforeCommands,
            InsertionPoint::AtEnd => Group::AtEnd,
        },
        SystemDescriptor::Parallel(_) => Group::Parallel,
    }
}

pub open spec fn descriptor_system(d: SystemDescriptor) -> SystemId {
    match d {
        SystemDescriptor::Exclusive(e) => e.system,
        SystemDescriptor::Parallel(p) => p.system,
    }
}

pub open spec fn descriptor_deps(d: SystemDescriptor) -> LabelSet {
    match d {
        SystemDescriptor::Exclusive(e) => e.deps,
        SystemDescriptor::Parallel(p) => p.deps,
    }
}

/// Whether the run criteria index a container holds (if any) is below `n`.
pub open spec fn index_below(c: SystemContainer, n: nat) -> bool {
    match c.run_criteria_index {
        Some(k) => k < n,
        None => true,
    }
}

/// Whether `c` is the container of a freshly added system.
pub open spec fn fresh_container(c: SystemContainer, system: SystemId, deps: LabelSet, index: Option<usize>, label: Option<u64>) -> bool {
    &&& c.system == system
    &&& c.deps == deps
    &&& c.run_criteria_index == index
    &&& c.run_criteria_label == label
    &&& c.dependencies@ == Seq::<usize>::empty()
    &&& !c.should_run
}

/// Whether `c` is the container of a freshly added run criteria.
pub open spec fn fresh_criteria(c: RunCriteriaContainer, d: RunCriteriaDescriptor) -> bool {
    &&& c.system == d.system
    &&& c.label == d.label
    &&& c.labels@ == match d.label {
        Some(l) => seq![l],
        None => Seq::<u64>::empty(),
    }
    &&& c.before == d.before
    &&& c.after == d.after
    &&& c.piped == d.piped
    &&& c.input == 0
    &&& c.should_run == ShouldRun::Yes
}

/// A run criteria is known by its own label only.
pub open spec fn labels_consistent(c: RunCriteriaContainer) -> bool {
    c.labels@ == match c.label {
        Some(l) => seq![l],
        None => Seq::<u64>::empty(),
    }
}

/// The pending systems are the last ones, listed in order; every run criteria index names one
/// of `criteria_len` run criteria, and a settled system's one of the first `settled`.
pub open spec fn group_wf(systems: Seq<SystemContainer>, pending: Seq<usize>, criteria_len: nat, settled: int) -> bool {
    &&& pending.len() <= systems.len()
    &&& forall|j: int| 0 <= j < pending.len() ==> #[trigger] pending[j] == systems.len() - pending.len() + j
    &&& forall|i: int| 0 <= i < systems.len() ==> index_below(#[trigger] systems[i], criteria_len)
    &&& forall|i: int| 0 <= i < systems.len() - pending.len() ==> index_below(#[trigger] systems[i], settled as nat)
}

proof fn lemma_group_wf_grow(systems: Seq<SystemContainer>, pending: Seq<usize>, n: nat, n2: nat, m: int)
    requires
        group_wf(systems, pending, n, m),
        n <= n2,
    ensures
        group_wf(systems, pending, n2, m),
{
    assert forall|i: int| 0 <= i < systems.len() implies index_below(#[trigger] systems[i], n2) by {
        assert(index_below(systems[i], n));
    }
}

proof fn lemma_group_wf_push(systems: Seq<SystemContainer>, pending: Seq<usize>, n: nat, m: int, c: SystemContainer)
    requires
        group_wf(systems, pending, n, m),
        index_below(c, n),
        systems.len() <= usize::MAX,
    ensures
        group_wf(systems.push(c), pending.push(systems.len() as usize), n, m),
{
    let s2 = systems.push(c);
    let p2 = pending.push(systems.len() as usize);
    assert forall|j: int| 0 <= j < p2.len() implies #[trigger] p2[j] == s2.len() - p2.len() + j by {
        if j < pending.len() {
            assert(p2[j] == pending[j]);
        }
    }
    assert forall|i: int| 0 <= i < s2.len() implies index_below(#[trigger] s2[i], n) by {
        if i < systems.len() {
            assert(s2[i] == systems[i]);
        }
    }
    assert forall|i: int| 0 <= i < s2.len() - p2.len() implies index_below(#[trigger] s2[i], m as nat) by {
        assert(s2[i] == systems[i]);
    }
}

impl SystemStage {
    pub open spec fn group(&self, g: Group) -> Seq<SystemContainer> {
        match g {
            Group::AtStart => self.exclusive_at_start@,
            Group::BeforeCommands => self.exclusive_before_commands@,
            Group::AtEnd => self.exclusive_at_end@,
            Group::Parallel => self.parallel@,
        }
    }

    pub open spec fn uninitialized(&self, g: Group) -> Seq<usize> {
        match g {
            Group::AtStart => self.uninitialized_at_start@,
            Group::BeforeCommands => self.uninitialized_before_commands@,
            Group::AtEnd => self.uninitialized_at_end@,
            Group::Parallel => self.uninitialized_parallel@,
        }
    }

    /// The run criteria not waiting for initialization: those before the pending ones.
    pub open spec fn settled_criteria(&self) -> int {
        self.run_criteria@.len() - self.uninitialized_run_criteria@.len()
    }

    /// The pending run criteria are the last ones, listed in order; the pending systems of each
    /// group are its last ones, listed in order; every run criteria index a system holds names a
    /// run criteria, and a settled system's names a settled run criteria.
    pub open spec fn wf(&self) -> bool {
        &&& self.uninitialized_run_criteria@.len() <= self.run_criteria@.len()
        &&& forall|j: int| 0 <= j < self.uninitialized_run_criteria@.len() ==> (#[trigger] self.uninitialized_run_criteria@[j]).0 == self.settled_criteria() + j
        &&& forall|g: Group| #[trigger] group_wf(self.group(g), self.uninitialized(g), self.run_criteria@.len(), self.settled_criteria())
        &&& forall|i: int| 0 <= i < self.run_criteria@.len() ==> labels_consistent(#[trigger] self.run_criteria@[i])
    }

    /// Everything but the systems, run criteria and their pending lists is unchanged.
    pub open spec fn same_settings(&self, other: &Self) -> bool {
        &&& self.world_id == other.world_id
        &&& self.executor == other.executor
        &&& self.stage_run_criteria == other.stage_run_criteria
        &&& self.executor_modified == other.executor_modified
        &&& self.last_tick_check == other.last_tick_check
        &&& self.apply_buffers == other.apply_buffers
    }

    /// The four system lists and their pending lists are those of `other`.
    pub open spec fn same_groups(&self, other: &Self) -> bool {
        &&& self.exclusive_at_start@ == other.exclusive_at_start@
        &&& self.exclusive_before_commands@ == other.exclusive_before_commands@
        &&& self.exclusive_at_end@ == other.exclusive_at_end@
        &&& self.parallel@ == other.parallel@
        &&& self.uninitialized_at_start@ == other.uninitialized_at_start@
        &&& self.uninitialized_before_commands@ == other.uninitialized_before_commands@
        &&& self.uninitialized_at_end@ == other.uninitialized_at_end@
        &&& self.uninitialized_parallel@ == other.uninitialized_parallel@
    }

    /// The stage holds no systems and no run criteria.
    pub open spec fn no_systems(&self) -> bool {
        &&& self.run_criteria@.len() == 0
        &&& self.uninitialized_run_criteria@.len() == 0
        &&& self.exclusive_at_start@.len() == 0
        &&& self.exclusive_before_commands@.len() == 0
        &&& self.exclusive_at_end@.len() == 0
        &&& self.parallel@.len() == 0
        &&& self.uninitialized_at_start@.len() == 0
        &&& self.uninitialized_before_commands@.len() == 0
        &&& self.uninitialized_at_end@.len() == 0
        &&& self.uninitialized_parallel@.len() == 0
    }

    proof fn lemma_wf_same_groups(a: &Self, b: &Self)
        requires
            b.wf(),
            a.same_groups(b),
            a.run_criteria@ == b.run_criteria@,
            a.uninitialized_run_criteria@ == b.uninitialized_run_criteria@,
        ensures
            a.wf(),
    {
        Self::lemma_same_groups(a, b);
        assert forall|g: Group| #[trigger] group_wf(a.group(g), a.uninitialized(g), a.run_criteria@.len(), a.settled_criteria()) by {
            assert(group_wf(b.group(g), b.uninitialized(g), b.run_criteria@.len(), b.settled_criteria()));
        }
    }

    proof fn lemma_same_groups(a: &Self, b: &Self)
        requires
            a.same_groups(b),
        ensures
            forall|g: Group| #[trigger] a.group(g) == b.group(g) && a.uninitialized(g) == b.uninitialized(g),
    {
        assert forall|g: Group| #[trigger] a.group(g) == b.group(g) && a.uninitialized(g) == b.uninitialized(g) by {
            match g {
                Group::AtStart => {},
                Group::BeforeCommands => {},
                Group::AtEnd => {},
                Group::Parallel => {},
            }
        }
    }

    /// A stage with no systems that runs its parallel systems with `executor`.
    pub fn new(executor: ExecutorKind) -> (s: Self)
        ensures
            s.wf(),
            s.world_id is None,
            s.executor == executor,
            s.stage_run_criteria is None,
            s.no_systems(),
            s.systems_modified,
            s.executor_modified,
            s.last_tick_check == 0,
            s.apply_buffers,
    {
        let s = SystemStage {
            world_id: None,
            executor,
            stage_run_criteria: None,
            run_criteria: Vec::new(),
            exclusive_at_start: Vec::new(),
            exclusive_before_commands: Vec::new(),
            exclusive_at_end: Vec::new(),
            parallel: Vec::new(),
            systems_modified: true,
            executor_modified: true,
            uninitialized_run_criteria: Vec::new(),
            uninitialized_at_start: Vec::new(),
            uninitialized_before_commands: Vec::new(),
            uninitialized_at_end: Vec::new(),
            uninitialized_parallel: Vec::new(),
            last_tick_check: 0,
            apply_buffers: true,
        };
        proof {
            assert forall|g: Group| #[trigger] group_wf(s.group(g), s.uninitialized(g), s.run_criteria@.len(), s.settled_criteria()) by {
                match g {
                    Group::AtStart => {},
                    Group::BeforeCommands => {},
                    Group::AtEnd => {},
                    Group::Parallel => {},
                }
            }
        }
        s
    }

    /// A stage run by a single-threaded executor.
    pub fn single_threaded() -> (s: Self)
        ensures
            s.wf(),
            s.executor == ExecutorKind::SingleThreaded,
            s.world_id is None,
            s.stage_run_criteria is None,
            s.no_systems(),
            s.systems_modified,
            s.executor_modified,
            s.last_tick_check == 0,
            s.apply_buffers,
    {
        Self::new(ExecutorKind::SingleThreaded)
    }

    /// A stage run by a parallel executor.
    pub fn parallel() -> (s: Self)
        ensures
            s.wf(),
            s.executor == ExecutorKind::Parallel,
            s.world_id is None,
            s.stage_run_criteria is None,
            s.no_systems(),
            s.systems_modified,
            s.executor_modified,
            s.last_tick_check == 0,
            s.apply_buffers,
    {
        Self::new(ExecutorKind::Parallel)
    }

    /// The executor, when it is of the kind asked for.
    pub fn get_executor(&self, kind: ExecutorKind) -> (r: Option<&ExecutorKind>)
        ensures
            r == if self.executor == kind { Some(&self.executor) } else { None },
    {
        if self.executor == kind {
            Some(&self.executor)
        } else {
            None
        }
    }

    /// The executor, when it is of the kind asked for, for changing; the stage then rebuilds the
    /// executor's cached data before its next run.
    pub fn get_executor_mut(&mut self, kind: ExecutorKind) -> (r: Option<ExecutorKind>)
        ensures
            *final(self) == (SystemStage { executor_modified: true, ..*old(self) }),
            r == if old(self).executor == kind { Some(old(self).executor) } else { None },
    {
        self.executor_modified = true;
        if self.executor == kind {
            Some(self.executor)
        } else {
            None
        }
    }

    /// Replaces the executor.
    pub fn set_executor(&mut self, executor: ExecutorKind)
        ensures
            *final(self) == (SystemStage { executor, executor_modified: true, ..*old(self) }),
    {
        self.executor_modified = true;
        self.executor = executor;
    }

    /// Whether command buffers are applied at the end of each pass.
    pub fn set_apply_buffers(&mut self, apply_buffers: bool)
        ensures
            *final(self) == (SystemStage { apply_buffers, ..*old(self) }),
    {
        self.apply_buffers = apply_buffers;
    }

    pub fn parallel_systems(&self) -> (s: &[SystemContainer])
        ensures
            s@ == self.parallel@,
    {
        self.parallel.as_slice()
    }

    pub fn exclusive_at_start_systems(&self) -> (s: &[SystemContainer])
        ensures
            s@ == self.exclusive_at_start@,
    {
        self.exclusive_at_start.as_slice()
    }

    pub fn exclusive_at_end_systems(&self) -> (s: &[SystemContainer])
        ensures
            s@ == self.exclusive_at_end@,
    {
        self.exclusive_at_end.as_slice()
    }

    pub fn exclusive_before_commands_systems(&self) -> (s: &[SystemContainer])
        ensures
            s@ == self.exclusive_before_commands@,
    {
        self.exclusive_before_commands.as_slice()
    }

    /// Adds a run criteria; returns its index.
    pub fn add_run_criteria_internal(&mut self, descriptor: RunCriteriaDescriptor) -> (index: usize)
        requires
            old(self).wf(),
        ensures
            final(self).wf(),
            index == old(self).run_criteria@.len(),
            final(self).run_criteria@.len() == old(self).run_criteria@.len() + 1,
            final(self).run_criteria@.drop_last() == old(self).run_criteria@,
            fresh_criteria(final(self).run_criteria@.last(), descriptor),
            final(self).uninitialized_run_criteria@ == old(self).uninitialized_run_criteria@.push((index, descriptor.duplicate_label_strategy)),
            final(self).same_groups(old(self)),
            final(self).same_settings(old(self)),
            final(self).systems_modified == old(self).systems_modified,
    {
        let index = self.run_criteria.len();
        self.uninitialized_run_criteria.push((index, descriptor.duplicate_label_strategy));
        self.run_criteria.push(RunCriteriaContainer::from_descriptor(descriptor));
        assert(self.run_criteria@.drop_last() =~= old(self).run_criteria@);
        proof {
            Self::lemma_same_groups(self, old(self));
            assert forall|g: Group| #[trigger] group_wf(self.group(g), self.uninitialized(g), self.run_criteria@.len(), self.settled_criteria()) by {
                assert(group_wf(old(self).group(g), old(self).uninitialized(g), old(self).run_criteria@.len(), old(self).settled_criteria()));
                lemma_group_wf_grow(self.group(g), self.uninitialized(g), old(self).run_criteria@.len(), self.run_criteria@.len(), self.settled_criteria());
            }
            assert forall|j: int| 0 <= j < self.uninitialized_run_criteria@.len() implies (#[trigger] self.uninitialized_run_criteria@[j]).0 == self.settled_criteria() + j by {
                if j < old(self).uninitialized_run_criteria@.len() {
                    assert(self.uninitialized_run_criteria@[j] == old(self).uninitialized_run_criteria@[j]);
                }
            }
        }
        index
    }

    /// Adds a run criteria that systems can refer to by its label.
    pub fn add_system_run_criteria(&mut self, run_criteria: RunCriteriaDescriptor)
        requires
            old(self).wf(),
        ensures
            final(self).wf(),
            final(self).run_criteria@.drop_last() == old(self).run_criteria@,
            final(self).run_criteria@.len() == old(self).run_criteria@.len() + 1,
            fresh_criteria(final(self).run_criteria@.last(), run_criteria),
            final(self).uninitialized_run_criteria@ == old(self).uninitialized_run_criteria@.push((old(self).run_criteria@.len() as usize, run_criteria.duplicate_label_strategy)),
            final(self).same_groups(old(self)),
            final(self).same_settings(old(self)),
            final(self).systems_modified == old(self).systems_modified,
    {
        self.add_run_criteria_internal(run_criteria);
    }

    /// Builder form of `add_system_run_criteria`.
    pub fn with_system_run_criteria(self, run_criteria: RunCriteriaDescriptor) -> (s: Self)
        requires
            self.wf(),
        ensures
            s.wf(),
            s.run_criteria@.drop_last() == self.run_criteria@,
            s.run_criteria@.len() == self.run_criteria@.len() + 1,
            fresh_criteria(s.run_criteria@.last(), run_criteria),
            s.same_groups(&self),
            s.same_settings(&self),
    {
        let mut s = self;
        s.add_system_run_criteria(run_criteria);
        s
    }

    /// Sets the run criteria of the whole stage.
    pub fn set_run_criteria(&mut self, system: SystemId)
        ensures
            final(self).stage_run_criteria == Some(system),
            final(self).run_criteria == old(self).run_criteria,
            final(self).same_groups(old(self)),
    {
        self.stage_run_criteria = Some(system);
    }

    /// Builder form of `set_run_criteria`.
    pub fn with_run_criteria(self, system: SystemId) -> (s: Self)
        ensures
            s.stage_run_criteria == Some(system),
            s.run_criteria == self.run_criteria,
            s.same_groups(&self),
    {
        let mut s = self;
        s.set_run_criteria(system);
        s
    }
}


impl SystemStage {
    /// Resolves the run criteria of a new system: adds a new run criteria when one is given in
    /// full, and returns the index and label the system records.
    fn attach_criteria(&mut self, rc: Option<RunCriteriaDescriptorOrLabel>, default_run_criteria: Option<usize>) -> (r: (Option<usize>, Option<u64>))
        requires
            old(self).wf(),
            default_run_criteria matches Some(k) ==> k < old(self).run_criteria@.len(),
        ensures
            final(self).wf(),
            r.0 == resolved_index(rc, default_run_criteria, old(self).run_criteria@.len()),
            r.1 == resolved_label(rc),
            r.0 matches Some(k) ==> k < final(self).run_criteria@.len(),
            match rc {
                Some(RunCriteriaDescriptorOrLabel::Descriptor(d)) => {
                    &&& final(self).run_criteria@.len() == old(self).run_criteria@.len() + 1
                    &&& final(self).run_criteria@.drop_last() == old(self).run_criteria@
                    &&& fresh_criteria(final(self).run_criteria@.last(), d)
                    &&& final(self).uninitialized_run_criteria@ == old(self).uninitialized_run_criteria@.push((old(self).run_criteria@.len() as usize, d.duplicate_label_strategy))
                },
                _ => {
                    &&& final(self).run_criteria@ == old(self).run_criteria@
                    &&& final(self).uninitialized_run_criteria@ == old(self).uninitialized_run_criteria@
                },
            },
            final(self).same_groups(old(self)),
            final(self).same_settings(old(self)),
            final(self).systems_modified == old(self).systems_modified,
    {
        if let Some(RunCriteriaDescriptorOrLabel::Descriptor(d)) = rc {
            let label = d.label;
            let index = self.add_run_criteria_internal(d);
            (Some(index), label)
        } else {
            let label = match rc {
                Some(RunCriteriaDescriptorOrLabel::Label(l)) => Some(l),
                _ => None,
            };
            let index = if label.is_some() { None } else { default_run_criteria };
            (index, label)
        }
    }

    /// Appends a container to group `g` and marks it as not yet initialized.
    fn push_container(&mut self, g: Group, container: SystemContainer)
        requires
            old(self).wf(),
            index_below(container, old(self).run_criteria@.len()),
        ensures
            final(self).wf(),
            final(self).group(g) == old(self).group(g).push(container),
            final(self).uninitialized(g) == old(self).uninitialized(g).push(old(self).group(g).len() as usize),
            forall|h: Group| h != g ==> #[trigger] final(self).group(h) == old(self).group(h) && final(self).uninitialized(h) == old(self).uninitialized(h),
            final(self).run_criteria == old(self).run_criteria,
            final(self).uninitialized_run_criteria == old(self).uninitialized_run_criteria,
            final(self).same_settings(old(self)),
            final(self).systems_modified == old(self).systems_modified,
    {
        match g {
            Group::AtStart => {
                let index = self.exclusive_at_start.len();
                self.uninitialized_at_start.push(index);
                self.exclusive_at_start.push(container);
            },
            Group::BeforeCommands => {
                let index = self.exclusive_before_commands.len();
                self.uninitialized_before_commands.push(index);
                self.exclusive_before_commands.push(container);
            },
            Group::AtEnd => {
                let index = self.exclusive_at_end.len();
                self.uninitialized_at_end.push(index);
                self.exclusive_at_end.push(container);
            },
            Group::Parallel => {
                let index = self.parallel.len();
                self.uninitialized_parallel.push(index);
                self.parallel.push(container);
            },
        }
        proof {
            assert forall|h: Group| #[trigger] group_wf(self.group(h), self.uninitialized(h), self.run_criteria@.len(), self.settled_criteria()) by {
                assert(group_wf(old(self).group(h), old(self).uninitialized(h), old(self).run_criteria@.len(), old(self).settled_criteria()));
                if h == g {
                    lemma_group_wf_push(old(self).group(h), old(self).uninitialized(h), old(self).run_criteria@.len(), old(self).settled_criteria(), container);
                }
            }
        }
    }

    /// Adds the container of a system with the given id and ordering to group `g`, with run
    /// criteria `rc`; without run criteria it gets `default_run_criteria`.
    #[verifier::spinoff_prover]
    fn add_container(
        &mut self,
        g: Group,
        system: SystemId,
        deps: LabelSet,
        rc: Option<RunCriteriaDescriptorOrLabel>,
        default_run_criteria: Option<usize>,
    )
        requires
            old(self).wf(),
            default_run_criteria matches Some(k) ==> k < old(self).run_criteria@.len(),
        ensures
            final(self).wf(),
            final(self).systems_modified,
            final(self).same_settings(old(self)),
            Self::added_with(final(self), old(self), g, system, deps, rc, default_run_criteria),
    {
        let ghost rc0 = rc;
        let ghost deps0 = deps;
        let (index, label) = self.attach_criteria(rc, default_run_criteria);
        proof { Self::lemma_same_groups(self, old(self)); }
        let ghost mid = *self;
        let container = SystemContainer {
            system,
            deps,
            run_criteria_index: index,
            run_criteria_label: label,
            dependencies: Vec::new(),
            should_run: false,
        };
        self.push_container(g, container);
        let ghost pre = *self;
        self.systems_modified = true;
        proof {
            Self::lemma_same_groups(self, &pre);
            Self::lemma_wf_same_groups(self, &pre);
            let n = old(self).run_criteria@.len();
            assert(self.group(g).drop_last() =~= old(self).group(g));
            assert(self.group(g).len() == old(self).group(g).len() + 1);
            assert(fresh_container(self.group(g).last(), system, deps0, resolved_index(rc0, default_run_criteria, n), resolved_label(rc0)));
            assert(self.uninitialized(g) == old(self).uninitialized(g).push(old(self).group(g).len() as usize));
            assert forall|h: Group| h != g implies #[trigger] self.group(h) == old(self).group(h) && self.uninitialized(h) == old(self).uninitialized(h) by {
                assert(self.group(h) == pre.group(h));
                assert(pre.group(h) == mid.group(h));
                assert(mid.group(h) == old(self).group(h));
            }
            assert(Self::criteria_added(self, old(self), rc0));
            assert(Self::added_with(self, old(self), g, system, deps0, rc0, default_run_criteria));
        }
    }

    /// Adds a system; when it has no run criteria of its own it gets `default_run_criteria`.
    fn add_system_inner(&mut self, system: SystemDescriptor, default_run_criteria: Option<usize>)
        requires
            old(self).wf(),
            default_run_criteria matches Some(k) ==> k < old(self).run_criteria@.len(),
        ensures
            final(self).wf(),
            final(self).systems_modified,
            final(self).same_settings(old(self)),
            Self::added_system(final(self), old(self), system, default_run_criteria),
    {
        match system {
            SystemDescriptor::Exclusive(descriptor) => {
                let g = match descriptor.insertion_point {
                    InsertionPoint::AtStart => Group::AtStart,
                    InsertionPoint::BeforeCommands => Group::BeforeCommands,
                    InsertionPoint::AtEnd => Group::AtEnd,
                };
                self.add_container(g, descriptor.system, descriptor.deps, descriptor.run_criteria, default_run_criteria);
            },
            SystemDescriptor::Parallel(descriptor) => {
                self.add_container(Group::Parallel, descriptor.system, descriptor.deps, descriptor.run_criteria, default_run_criteria);
            },
        }
    }

    /// `new`'s run criteria are `old`'s, with `rc` appended when it is given in full.
    pub open spec fn criteria_added(new: &Self, old: &Self, rc: Option<RunCriteriaDescriptorOrLabel>) -> bool {
        let n = old.run_criteria@.len();
        match rc {
            Some(RunCriteriaDescriptorOrLabel::Descriptor(d)) => {
                &&& new.run_criteria@.len() == n + 1
                &&& new.run_criteria@.drop_last() == old.run_criteria@
                &&& fresh_criteria(new.run_criteria@.last(), d)
                &&& new.uninitialized_run_criteria@ == old.uninitialized_run_criteria@.push((n as usize, d.duplicate_label_strategy))
            },
            _ => {
                &&& new.run_criteria@ == old.run_criteria@
                &&& new.uninitialized_run_criteria@ == old.uninitialized_run_criteria@
            },
        }
    }

    /// `new` is `old` with a system added to group `g`: its run criteria `rc` (when given in
    /// full) appended to the run criteria, and its container appended to the group and marked as
    /// not initialized.
    pub open spec fn added_with(
        new: &Self,
        old: &Self,
        g: Group,
        system: SystemId,
        deps: LabelSet,
        rc: Option<RunCriteriaDescriptorOrLabel>,
        default_run_criteria: Option<usize>,
    ) -> bool {
        let n = old.run_criteria@.len();
        &&& Self::criteria_added(new, old, rc)
        &&& new.group(g).len() == old.group(g).len() + 1
        &&& new.group(g).drop_last() == old.group(g)
        &&& fresh_container(new.group(g).last(), system, deps, resolved_index(rc, default_run_criteria, n), resolved_label(rc))
        &&& new.uninitialized(g) == old.uninitialized(g).push(old.group(g).len() as usize)
        &&& forall|h: Group| h != g ==> #[trigger] new.group(h) == old.group(h) && new.uninitialized(h) == old.uninitialized(h)
    }

    /// `new` is `old` with `system` added.
    pub open spec fn added_system(new: &Self, old: &Self, system: SystemDescriptor, default_run_criteria: Option<usize>) -> bool {
        Self::added_with(
            new,
            old,
            target_group(system),
            descriptor_system(system),
            descriptor_deps(system),
            descriptor_criteria(system),
            default_run_criteria,
        )
    }

    /// The run criteria a system of a set is added with: the set's label when the set names its
    /// run criteria by label, otherwise the system's own.
    pub open spec fn criteria_in_set(set_rc: Option<RunCriteriaDescriptorOrLabel>, system: SystemDescriptor) -> Option<RunCriteriaDescriptorOrLabel> {
        match set_rc {
            Some(RunCriteriaDescriptorOrLabel::Label(l)) => Some(RunCriteriaDescriptorOrLabel::Label(l)),
            _ => descriptor_criteria(system),
        }
    }

    /// `trace` goes from a stage to the next by adding the systems of a set in order, each with
    /// the run criteria the set gives it and `default_run_criteria`.
    pub open spec fn adds_in_order(
        trace: Seq<Self>,
        systems: Seq<SystemDescriptor>,
        set_rc: Option<RunCriteriaDescriptorOrLabel>,
        default_run_criteria: Option<usize>,
    ) -> bool {
        &&& trace.len() == systems.len() + 1
        &&& forall|k: int| 0 <= k < systems.len() ==> #[trigger] Self::added_with(
            &trace[k + 1],
            &trace[k],
            target_group(systems[k]),
            descriptor_system(systems[k]),
            descriptor_deps(systems[k]),
            Self::criteria_in_set(set_rc, systems[k]),
            default_run_criteria,
        )
    }

    /// The run criteria a set adds before its systems: its own, when given in full.
    pub open spec fn set_criteria_descriptor(set_rc: Option<RunCriteriaDescriptorOrLabel>) -> Option<RunCriteriaDescriptorOrLabel> {
        match set_rc {
            Some(RunCriteriaDescriptorOrLabel::Descriptor(d)) => Some(RunCriteriaDescriptorOrLabel::Descriptor(d)),
            _ => None,
        }
    }

    /// The run criteria index the systems of a set get by default: that of the set's own run
    /// criteria, added at index `n`, when given in full.
    pub open spec fn set_default(set_rc: Option<RunCriteriaDescriptorOrLabel>, n: nat) -> Option<usize> {
        match set_rc {
            Some(RunCriteriaDescriptorOrLabel::Descriptor(_)) => Some(n as usize),
            _ => None,
        }
    }

    /// Adds the systems of a set, in order. A set with run criteria given in full adds them first
    /// and its systems use them; a set naming run criteria by label hands the label to each of its
    /// systems.
    pub fn add_system_set(&mut self, system_set: SystemSet)
        requires
            old(self).wf(),
            !system_set.spec_has_conflicting_criteria(),
        ensures
            final(self).wf(),
            final(self).systems_modified,
            final(self).same_settings(old(self)),
            exists|trace: Seq<Self>| {
                &&& Self::criteria_added(&trace[0], old(self), Self::set_criteria_descriptor(system_set.run_criteria))
                &&& trace[0].same_groups(old(self))
                &&& Self::adds_in_order(
                    trace,
                    system_set.systems@,
                    system_set.run_criteria,
                    Self::set_default(system_set.run_criteria, old(self).run_criteria@.len()),
                )
                &&& trace.last() == *final(self)
            },
    {
        let ghost set_rc = system_set.run_criteria;
        let ghost all = system_set.systems@;
        let ghost n0 = self.run_criteria@.len();
        let SystemSet { run_criteria, systems } = system_set;
        let mut systems = systems;
        self.systems_modified = true;
        proof {
            Self::lemma_wf_same_groups(self, old(self));
        }
        let (default_run_criteria, set_label) = match run_criteria {
            Some(RunCriteriaDescriptorOrLabel::Descriptor(d)) => (Some(self.add_run_criteria_internal(d)), None),
            Some(RunCriteriaDescriptorOrLabel::Label(l)) => (None, Some(l)),
            None => (None, None),
        };
        proof {
            Self::lemma_same_groups(self, old(self));
        }
        let ghost start = *self;
        let ghost mut trace: Seq<Self> = seq![*self];
        let len = systems.len();
        let mut i: usize = 0;
        while i < len
            invariant
                0 <= i <= len,
                len == all.len(),
                systems@ == all.subrange(i as int, len as int),
                self.wf(),
                default_run_criteria == Self::set_default(set_rc, n0),
                default_run_criteria matches Some(k) ==> k < self.run_criteria@.len(),
                self.run_criteria@.len() >= start.run_criteria@.len(),
                set_label == (match set_rc {
                    Some(RunCriteriaDescriptorOrLabel::Label(l)) => Some(l),
                    _ => None::<u64>,
                }),
                trace.len() == i + 1,
                trace[0] == start,
                trace.last() == *self,
                forall|k: int| 0 <= k < i ==> #[trigger] Self::added_with(
                    &trace[k + 1],
                    &trace[k],
                    target_group(all[k]),
                    descriptor_system(all[k]),
                    descriptor_deps(all[k]),
                    Self::criteria_in_set(set_rc, all[k]),
                    default_run_criteria,
                ),
                self.systems_modified,
                self.same_settings(old(self)),
            decreases len - i,
        {
            let system = systems.remove(0);
            assert(system == all[i as int]);
            let ghost before = *self;
            match system {
                SystemDescriptor::Exclusive(descriptor) => {
                    let g = match descriptor.insertion_point {
                        InsertionPoint::AtStart => Group::AtStart,
                        InsertionPoint::BeforeCommands => Group::BeforeCommands,
                        InsertionPoint::AtEnd => Group::AtEnd,
                    };
                    let rc = match set_label {
                        Some(l) => Some(RunCriteriaDescriptorOrLabel::Label(l)),
                        None => descriptor.run_criteria,
                    };
                    self.add_container(g, descriptor.system, descriptor.deps, rc, default_run_criteria);
                },
                SystemDescriptor::Parallel(descriptor) => {
                    let rc = match set_label {
                        Some(l) => Some(RunCriteriaDescriptorOrLabel::Label(l)),
                        None => descriptor.run_criteria,
                    };
                    self.add_container(Group::Parallel, descriptor.system, descriptor.deps, rc, default_run_criteria);
                },
            }
            proof {
                trace = trace.push(*self);
                assert(trace[i as int] == before);
                assert(systems@ =~= all.subrange(i + 1, len as int));
            }
            i += 1;
        }
        proof {
            assert(Self::adds_in_order(trace, all, set_rc, Self::set_default(set_rc, n0)));
            assert(Self::criteria_added(&trace[0], old(self), Self::set_criteria_descriptor(set_rc)));
            assert(trace[0].same_groups(old(self)));
        }
    }

    /// Builder form of `add_system_set`.
    pub fn with_system_set(self, system_set: SystemSet) -> (s: Self)
        requires
            self.wf(),
            !system_set.spec_has_conflicting_criteria(),
        ensures
            s.wf(),
            s.systems_modified,
            s.same_settings(&self),
            exists|trace: Seq<Self>| {
                &&& Self::criteria_added(&trace[0], &self, Self::set_criteria_descriptor(system_set.run_criteria))
                &&& trace[0].same_groups(&self)
                &&& Self::adds_in_order(
                    trace,
                    system_set.systems@,
                    system_set.run_criteria,
                    Self::set_default(system_set.run_criteria, self.run_criteria@.len()),
                )
                &&& trace.last() == s
            },
    {
        let mut s = self;
        s.add_system_set(system_set);
        s
    }

    /// Adds a system.
    pub fn add_system(&mut self, system: SystemDescriptor)
        requires
            old(self).wf(),
        ensures
            final(self).wf(),
            final(self).systems_modified,
            final(self).same_settings(old(self)),
            Self::added_system(final(self), old(self), system, None),
    {
        self.add_system_inner(system, None);
    }

    /// Builder form of `add_system`.
    pub fn with_system(self, system: SystemDescriptor) -> (s: Self)
        requires
            self.wf(),
        ensures
            s.wf(),
            s.systems_modified,
            s.same_settings(&self),
            Self::added_system(&s, &self, system, None),
    {
        let mut s = self;
        s.add_system(system);
        s
    }

    /// `s` holds `system` and nothing else: its run criteria (when given in full) is the only
    /// run criteria, and its container the only system, both not yet initialized.
    pub open spec fn holds_only(s: &Self, system: SystemDescriptor) -> bool {
        let rc = descriptor_criteria(system);
        let g = target_group(system);
        &&& match rc {
            Some(RunCriteriaDescriptorOrLabel::Descriptor(d)) => {
                &&& s.run_criteria@.len() == 1
                &&& fresh_criteria(s.run_criteria@[0], d)
                &&& s.uninitialized_run_criteria@ == seq![(0usize, d.duplicate_label_strategy)]
            },
            _ => {
                &&& s.run_criteria@.len() == 0
                &&& s.uninitialized_run_criteria@.len() == 0
            },
        }
        &&& s.group(g).len() == 1
        &&& fresh_container(
            s.group(g)[0],
            descriptor_system(system),
            descriptor_deps(system),
            resolved_index(rc, None, 0),
            resolved_label(rc),
        )
        &&& s.uninitialized(g) == seq![0usize]
        &&& forall|h: Group| h != g ==> #[trigger] s.group(h).len() == 0 && s.uninitialized(h).len() == 0
    }

    /// A single-threaded stage holding one system.
    pub fn single(system: SystemDescriptor) -> (s: Self)
        ensures
            s.wf(),
            s.executor == ExecutorKind::SingleThreaded,
            s.world_id is None,
            s.stage_run_criteria is None,
            s.systems_modified,
            s.executor_modified,
            s.apply_buffers,
            s.last_tick_check == 0,
            Self::holds_only(&s, system),
    {
        let empty = Self::single_threaded();
        let ghost e = empty;
        let s = empty.with_system(system);
        proof {
            let g = target_group(system);
            assert(e.group(g).len() == 0);
            assert(s.group(g).len() == 1);
            assert(s.group(g)[0] == s.group(g).last());
            assert(e.uninitialized(g) =~= Seq::<usize>::empty());
            assert(s.uninitialized(g) =~= seq![0usize]);
            assert(fresh_container(
                s.group(g)[0],
                descriptor_system(system),
                descriptor_deps(system),
                resolved_index(descriptor_criteria(system), None, 0),
                resolved_label(descriptor_criteria(system)),
            ));
            assert forall|h: Group| h != g implies #[trigger] s.group(h).len() == 0 && s.uninitialized(h).len() == 0 by {
                assert(s.group(h) == e.group(h));
                assert(s.uninitialized(h) == e.uninitialized(h));
            }
            match descriptor_criteria(system) {
                Some(RunCriteriaDescriptorOrLabel::Descriptor(d)) => {
                    assert(s.run_criteria@[0] == s.run_criteria@.last());
                    assert(e.uninitialized_run_criteria@ =~= Seq::<(usize, DuplicateLabelStrategy)>::empty());
                    assert(s.uninitialized_run_criteria@ =~= seq![(0usize, d.duplicate_label_strategy)]);
                },
                _ => {},
            }
        }
        s
    }
}


/// `b` is `a` with its run criteria index set to `index`.
pub open spec fn reindexed(a: SystemContainer, b: SystemContainer, index: Option<usize>) -> bool {
    &&& b.system == a.system
    &&& b.deps == a.deps
    &&& b.run_criteria_index == index
    &&& b.run_criteria_label == a.run_criteria_label
    &&& b.dependencies == a.dependencies
    &&& b.should_run == a.should_run
}

/// The index a run criteria index becomes under `new_indices`.
pub open spec fn mapped_index(index: Option<usize>, new_indices: Seq<int>) -> Option<usize> {
    match index {
        Some(k) => Some(new_indices[k as int] as usize),
        None => None,
    }
}

/// Maps the run criteria index of the systems from `first` on through `new_indices`.
fn remap_from(systems: &mut Vec<SystemContainer>, first: usize, new_indices: &Vec<usize>)
    requires
        first <= old(systems)@.len(),
        forall|i: int| first <= i < old(systems)@.len() ==> (match #[trigger] old(systems)@[i].run_criteria_index {
            Some(k) => k < new_indices@.len(),
            None => true,
        }),
    ensures
        final(systems)@.len() == old(systems)@.len(),
        forall|i: int| 0 <= i < first ==> #[trigger] final(systems)@[i] == old(systems)@[i],
        forall|i: int| first <= i < old(systems)@.len() ==> reindexed(
            old(systems)@[i],
            #[trigger] final(systems)@[i],
            mapped_index(old(systems)@[i].run_criteria_index, new_indices@.map_values(|x: usize| x as int)),
        ),
{
    let mut i = first;
    while i < systems.len()
        invariant
            first <= i <= systems@.len(),
            systems@.len() == old(systems)@.len(),
            forall|j: int| 0 <= j < first ==> #[trigger] systems@[j] == old(systems)@[j],
            forall|j: int| i <= j < systems@.len() ==> #[trigger] systems@[j] == old(systems)@[j],
            forall|j: int| first <= j < old(systems)@.len() ==> (match #[trigger] old(systems)@[j].run_criteria_index {
                Some(k) => k < new_indices@.len(),
                None => true,
            }),
            forall|j: int| first <= j < i ==> reindexed(
                old(systems)@[j],
                #[trigger] systems@[j],
                mapped_index(old(systems)@[j].run_criteria_index, new_indices@.map_values(|x: usize| x as int)),
            ),
        decreases systems@.len() - i,
    {
        let current = systems[i].run_criteria_index;
        if let Some(k) = current {
            systems[i].run_criteria_index = Some(new_indices[k]);
        }
        i += 1;
    }
}


impl SystemStage {
    /// The duplicate-label strategy of run criteria `i` when it waits for initialization.
    pub open spec fn pending_strategy(&self, i: int) -> Option<DuplicateLabelStrategy> {
        if self.settled_criteria() <= i < self.run_criteria@.len() {
            Some(self.uninitialized_run_criteria@[i - self.settled_criteria()].1)
        } else {
            None
        }
    }

    /// Whether run criteria `i` is pending and labelled with a label that a run criteria kept
    /// before it carries.
    pub open spec fn is_duplicate(&self, i: int, labels: Map<u64, int>) -> bool {
        &&& self.pending_strategy(i) is Some
        &&& self.run_criteria@[i].label is Some
        &&& labels.contains_key(self.run_criteria@[i].label.unwrap())
    }

    /// Initialization walks the first `k` run criteria in order. It yields: which are kept, the
    /// index each kept label gets, the index each run criteria's users get (a discarded
    /// duplicate's users get the index of the kept run criteria with its label), how many are
    /// kept, and the label of a duplicate that asked for an error (which stops the walk).
    pub open spec fn init_walk(&self, k: nat) -> (Seq<bool>, Map<u64, int>, Seq<int>, int, Option<u64>)
        decreases k,
    {
        if k == 0 {
            (Seq::empty(), Map::empty(), Seq::empty(), 0, None)
        } else {
            let w = self.init_walk((k - 1) as nat);
            let i = k - 1;
            let label = self.run_criteria@[i].label;
            if w.4 is Some {
                w
            } else if self.is_duplicate(i, w.1) {
                match self.pending_strategy(i).unwrap() {
                    DuplicateLabelStrategy::Panic => (w.0, w.1, w.2, w.3, label),
                    DuplicateLabelStrategy::Discard => (w.0.push(false), w.1, w.2.push(w.1[label.unwrap()]), w.3, None),
                }
            } else {
                let labels = match label {
                    Some(l) => w.1.insert(l, w.3),
                    None => w.1,
                };
                (w.0.push(true), labels, w.2.push(w.3), w.3 + 1, None)
            }
        }
    }
}


impl SystemStage {
    proof fn lemma_walk_facts(&self, k: nat)
        requires
            self.wf(),
            k <= self.run_criteria@.len(),
            self.init_walk(k).4 is None,
        ensures
            ({
                let w = self.init_walk(k);
                &&& w.0.len() == k
                &&& w.2.len() == k
                &&& 0 <= w.3 <= k
                &&& forall|j: int| 0 <= j < k ==> 0 <= #[trigger] w.2[j] < w.3
                &&& forall|l: u64| #[trigger] w.1.contains_key(l) ==> 0 <= w.1[l] < w.3
                &&& k <= self.settled_criteria() ==> w.3 == k
                &&& k > self.settled_criteria() ==> w.3 >= self.settled_criteria()
            }),
        decreases k,
    {
        if k > 0 {
            let w = self.init_walk((k - 1) as nat);
            assert(w.4 is None);
            self.lemma_walk_facts((k - 1) as nat);
            let v = self.init_walk(k);
            let i = k - 1;
            if self.is_duplicate(i, w.1) {
                assert(v.2 == w.2.push(w.1[self.run_criteria@[i].label.unwrap()]));
                assert forall|j: int| 0 <= j < k implies 0 <= #[trigger] v.2[j] < v.3 by {
                    if j < k - 1 {
                        assert(v.2[j] == w.2[j]);
                    }
                }
            } else {
                assert forall|j: int| 0 <= j < k implies 0 <= #[trigger] v.2[j] < v.3 by {
                    if j < k - 1 {
                        assert(v.2[j] == w.2[j]);
                    }
                }
            }
        }
    }

    proof fn lemma_walk_stops(&self, k: nat, n: nat)
        requires
            k <= n,
            self.init_walk(k).4 is Some,
        ensures
            self.init_walk(n) == self.init_walk(k),
        decreases n,
    {
        if n > k {
            self.lemma_walk_stops(k, (n - 1) as nat);
        }
    }

    proof fn lemma_walk_prefix(&self, k: nat, n: nat)
        requires
            self.wf(),
            n <= self.run_criteria@.len(),
            k <= n,
            self.init_walk(n).4 is None,
        ensures
            self.init_walk(k).4 is None,
            self.init_walk(k).0 == self.init_walk(n).0.take(k as int),
            self.init_walk(k).2 == self.init_walk(n).2.take(k as int),
        decreases n,
    {
        let w = self.init_walk(n);
        if n > 0 {
            let v = self.init_walk((n - 1) as nat);
            assert(v.4 is None);
            self.lemma_walk_facts((n - 1) as nat);
            assert(v.0 =~= w.0.take(n - 1));
            assert(v.2 =~= w.2.take(n - 1));
            if k < n {
                self.lemma_walk_prefix(k, (n - 1) as nat);
                assert(w.0.take(n - 1).take(k as int) =~= w.0.take(k as int));
                assert(w.2.take(n - 1).take(k as int) =~= w.2.take(k as int));
            } else {
                assert(w.0.take(n as int) =~= w.0);
                assert(w.2.take(n as int) =~= w.2);
            }
        } else {
            assert(w.0.take(0) =~= w.0);
            assert(w.2.take(0) =~= w.2);
        }
    }
}


/// `new` is the systems of `old` with those from `first` on reindexed through `new_indices`.
pub open spec fn group_initialized(new: Seq<SystemContainer>, old: Seq<SystemContainer>, first: int, new_indices: Seq<int>) -> bool {
    &&& new.len() == old.len()
    &&& forall|i: int| 0 <= i < first ==> #[trigger] new[i] == old[i]
    &&& forall|i: int| first <= i < old.len() ==> reindexed(old[i], #[trigger] new[i], mapped_index(old[i].run_criteria_index, new_indices))
}

proof fn lemma_initialized_group_wf(
    new: Seq<SystemContainer>,
    old: Seq<SystemContainer>,
    pending: Seq<usize>,
    n: nat,
    m: int,
    new_indices: Seq<int>,
    kept: int,
)
    requires
        group_wf(old, pending, n, m),
        group_initialized(new, old, old.len() - pending.len(), new_indices),
        0 <= m <= kept,
        new_indices.len() == n,
        forall|j: int| 0 <= j < n ==> 0 <= #[trigger] new_indices[j] < kept,
    ensures
        group_wf(new, Seq::<usize>::empty(), kept as nat, kept),
{
    assert forall|i: int| 0 <= i < new.len() implies index_below(#[trigger] new[i], kept as nat) by {
        assert(index_below(old[i], n));
        if i < old.len() - pending.len() {
            assert(index_below(old[i], m as nat));
            assert(new[i] == old[i]);
        } else {
            assert(reindexed(old[i], new[i], mapped_index(old[i].run_criteria_index, new_indices)));
        }
    }
}

impl SystemStage {
    /// `new` is `old` initialized: of the run criteria, those `keep` marks are kept in order (the
    /// `j`-th at `new_indices[j]`), the pending systems have their run criteria index mapped
    /// through `new_indices`, and nothing waits for initialization any more.
    pub open spec fn initialized(new: &Self, old: &Self, keep: Seq<bool>, new_indices: Seq<int>, kept: int) -> bool {
        &&& new.run_criteria@.len() == kept
        &&& forall|j: int| 0 <= j < old.run_criteria@.len() && #[trigger] keep[j] ==> new.run_criteria@[new_indices[j]] == old.run_criteria@[j]
        &&& new.uninitialized_run_criteria@.len() == 0
        &&& forall|g: Group| #[trigger] new.uninitialized(g).len() == 0 && group_initialized(
            new.group(g),
            old.group(g),
            old.group(g).len() - old.uninitialized(g).len(),
            new_indices,
        )
        &&& new.same_settings(old)
        &&& new.systems_modified == old.systems_modified
    }

    /// The label of the first pending run criteria that reuses a label already in use and asks
    /// for an error when that happens (see `init_walk`), if any: initialization is refused exactly
    /// when there is one.
    pub fn duplicate_run_criteria_label(&self) -> (r: Option<u64>)
        requires
            self.wf(),
        ensures
            r == self.init_walk(self.run_criteria@.len()).4,
    {
        let n = self.run_criteria.len();
        let m = n - self.uninitialized_run_criteria.len();
        let mut keep: Vec<bool> = Vec::new();
        let mut labels: KeyMap<usize> = KeyMap::new();
        let mut new_indices: Vec<usize> = Vec::new();
        let mut kept: usize = 0;
        let mut i: usize = 0;
        while i < n
            invariant
                self.wf(),
                n == self.run_criteria@.len(),
                m == self.settled_criteria(),
                i <= n,
                labels.wf(),
                ({
                    let w = self.init_walk(i as nat);
                    &&& w.4 is None
                    &&& keep@ == w.0
                    &&& new_indices@.map_values(|x: usize| x as int) == w.2
                    &&& kept == w.3
                    &&& labels@.dom() == w.1.dom()
                    &&& forall|l: u64| #[trigger] labels@.contains_key(l) ==> labels@[l] as int == w.1[l]
                }),
            decreases n - i,
        {
            proof { self.lemma_walk_facts(i as nat); }
            let ghost w = self.init_walk(i as nat);
            let label = self.run_criteria[i].label;
            let strategy = if i >= m { Some(self.uninitialized_run_criteria[i - m].1) } else { None };
            let duplicate_of = match (strategy, label) {
                (Some(_), Some(l)) => match labels.get(l) {
                    Some(t) => Some(*t),
                    None => None,
                },
                _ => None,
            };
            match duplicate_of {
                Some(t) => {
                    assert(self.is_duplicate(i as int, w.1));
                    match strategy {
                        Some(DuplicateLabelStrategy::Discard) => {
                            keep.push(false);
                            new_indices.push(t);
                        },
                        _ => {
                            let l = label.unwrap();
                            proof {
                                assert(self.init_walk((i + 1) as nat).4 == Some(l));
                                self.lemma_walk_stops((i + 1) as nat, n as nat);
                            }
                            return Some(l);
                        },
                    }
                },
                None => {
                    assert(!self.is_duplicate(i as int, w.1));
                    if let Some(l) = label {
                        labels.insert(l, kept);
                    }
                    keep.push(true);
                    new_indices.push(kept);
                    kept += 1;
                },
            }
            proof {
                let v = self.init_walk((i + 1) as nat);
                assert(new_indices@.map_values(|x: usize| x as int) =~= v.2);
                assert(labels@.dom() =~= v.1.dom());
            }
            i += 1;
        }
        None
    }

    /// Initializes what was added since the last initialization: run criteria that reuse a label
    /// already in use are discarded (their systems then use the run criteria with that label), and
    /// pending systems get the new index of their run criteria. No pending run criteria reuses a
    /// label in use while asking for an error (see `duplicate_run_criteria_label`).
    pub fn initialize_systems(&mut self)
        requires
            old(self).wf(),
            old(self).init_walk(old(self).run_criteria@.len()).4 is None,
        ensures
            final(self).wf(),
            ({
                let w = old(self).init_walk(old(self).run_criteria@.len());
                &&& Self::initialized(final(self), old(self), w.0, w.2, w.3)
                &&& final(self).fully_initialized()
                &&& final(self).system_count() == old(self).system_count()
            }),
    {
        match self.initialize_or_refuse() {
            Ok(_) => {},
            // not reached: no pending run criteria asks for an error
            Err(_) => {},
        }
    }

    /// Initializes what was added since the last initialization: run criteria that reuse a label
    /// already in use are discarded (their systems then use the run criteria with that label) or
    /// rejected, as their duplicate-label strategy says, and pending systems get the new index of
    /// their run criteria.
    fn initialize_or_refuse(&mut self) -> (r: Result<(), StageError>)
        requires
            old(self).wf(),
        ensures
            final(self).wf(),
            ({
                let w = old(self).init_walk(old(self).run_criteria@.len());
                match r {
                    Err(e) => {
                        &&& w.4 is Some
                        &&& e == StageError::DuplicateRunCriteriaLabel(w.4.unwrap())
                        &&& *final(self) == *old(self)
                    },
                    Ok(_) => {
                        &&& w.4 is None
                        &&& Self::initialized(final(self), old(self), w.0, w.2, w.3)
                        &&& final(self).fully_initialized()
                        &&& final(self).system_count() == old(self).system_count()
                    },
                }
            }),
    {
        let n = self.run_criteria.len();
        let m = n - self.uninitialized_run_criteria.len();
        let mut keep: Vec<bool> = Vec::new();
        let mut labels: KeyMap<usize> = KeyMap::new();
        let mut new_indices: Vec<usize> = Vec::new();
        let mut kept: usize = 0;
        let mut i: usize = 0;
        while i < n
            invariant
                self.wf(),
                n == self.run_criteria@.len(),
                m == self.settled_criteria(),
                i <= n,
                labels.wf(),
                ({
                    let w = self.init_walk(i as nat);
                    &&& w.4 is None
                    &&& keep@ == w.0
                    &&& new_indices@.map_values(|x: usize| x as int) == w.2
                    &&& kept == w.3
                    &&& labels@.dom() == w.1.dom()
                    &&& forall|l: u64| #[trigger] labels@.contains_key(l) ==> labels@[l] as int == w.1[l]
                }),
            decreases n - i,
        {
            proof { self.lemma_walk_facts(i as nat); }
            let ghost w = self.init_walk(i as nat);
            let label = self.run_criteria[i].label;
            let strategy = if i >= m { Some(self.uninitialized_run_criteria[i - m].1) } else { None };
            let duplicate_of = match (strategy, label) {
                (Some(_), Some(l)) => match labels.get(l) {
                    Some(t) => Some(*t),
                    None => None,
                },
                _ => None,
            };
            match duplicate_of {
                Some(t) => {
                    assert(self.is_duplicate(i as int, w.1));
                    match strategy {
                        Some(DuplicateLabelStrategy::Discard) => {
                            keep.push(false);
                            new_indices.push(t);
                        },
                        _ => {
                            let l = label.unwrap();
                            proof {
                                assert(self.init_walk((i + 1) as nat).4 == Some(l));
                                self.lemma_walk_stops((i + 1) as nat, n as nat);
                            }
                            return Err(StageError::DuplicateRunCriteriaLabel(l));
                        },
                    }
                },
                None => {
                    assert(!self.is_duplicate(i as int, w.1));
                    if let Some(l) = label {
                        labels.insert(l, kept);
                    }
                    keep.push(true);
                    new_indices.push(kept);
                    kept += 1;
                },
            }
            proof {
                let v = self.init_walk((i + 1) as nat);
                assert(new_indices@.map_values(|x: usize| x as int) =~= v.2);
                assert(labels@.dom() =~= v.1.dom());
            }
            i += 1;
        }
        proof {
            self.lemma_walk_facts(n as nat);
        }
        let ghost orig = *self;
        let ghost w = self.init_walk(n as nat);
        let mut old_criteria: Vec<RunCriteriaContainer> = Vec::new();
        std::mem::swap(&mut old_criteria, &mut self.run_criteria);
        let mut j: usize = 0;
        while j < n
            invariant
                orig.wf(),
                n == orig.run_criteria@.len(),
                w == orig.init_walk(n as nat),
                w.4 is None,
                w.0.len() == n,
                w.2.len() == n,
                keep@ == w.0,
                new_indices@.map_values(|x: usize| x as int) == w.2,
                j <= n,
                old_criteria@ == orig.run_criteria@.subrange(j as int, n as int),
                self.run_criteria@.len() == orig.init_walk(j as nat).3,
                forall|q: int| 0 <= q < j && #[trigger] w.0[q] ==> self.run_criteria@[w.2[q]] == orig.run_criteria@[q],
                self.run_criteria@.len() <= j,
                forall|q: int| 0 <= q < self.run_criteria@.len() ==> labels_consistent(#[trigger] self.run_criteria@[q]),
                self.same_groups(&orig),
                self.same_settings(&orig),
                self.systems_modified == orig.systems_modified,
            decreases n - j,
        {
            proof {
                orig.lemma_walk_prefix((j + 1) as nat, n as nat);
                orig.lemma_walk_facts((j + 1) as nat);
                orig.lemma_walk_facts(j as nat);
                let u = orig.init_walk(j as nat);
                let v = orig.init_walk((j + 1) as nat);
                assert(v.0[j as int] == w.0[j as int]);
                assert(v.2[j as int] == w.2[j as int]);
            }
            proof {
                orig.lemma_walk_prefix(j as nat, n as nat);
            }
            let ghost before = self.run_criteria@;
            let c = old_criteria.remove(0);
            if keep[j] {
                self.run_criteria.push(c);
            }
            proof {
                assert(old_criteria@ =~= orig.run_criteria@.subrange(j + 1, n as int));
                let u = orig.init_walk(j as nat);
                assert forall|q: int| 0 <= q < j + 1 && #[trigger] w.0[q] implies self.run_criteria@[w.2[q]] == orig.run_criteria@[q] by {
                    if q < j {
                        assert(u.2[q] == w.2[q]);
                        assert(u.0[q] == w.0[q]);
                        assert(w.2[q] < before.len());
                        assert(self.run_criteria@[w.2[q]] == before[w.2[q]]);
                    }
                }
            }
            j += 1;
        }
        self.uninitialized_run_criteria.clear();
        proof {
            assert(group_wf(orig.group(Group::AtStart), orig.uninitialized(Group::AtStart), n as nat, orig.settled_criteria()));
            assert(group_wf(orig.group(Group::BeforeCommands), orig.uninitialized(Group::BeforeCommands), n as nat, orig.settled_criteria()));
            assert(group_wf(orig.group(Group::AtEnd), orig.uninitialized(Group::AtEnd), n as nat, orig.settled_criteria()));
            assert(group_wf(orig.group(Group::Parallel), orig.uninitialized(Group::Parallel), n as nat, orig.settled_criteria()));
            assert(new_indices@.len() == n);
        }
        let first = self.exclusive_at_start.len() - self.uninitialized_at_start.len();
        remap_from(&mut self.exclusive_at_start, first, &new_indices);
        self.uninitialized_at_start.clear();
        let first = self.exclusive_before_commands.len() - self.uninitialized_before_commands.len();
        remap_from(&mut self.exclusive_before_commands, first, &new_indices);
        self.uninitialized_before_commands.clear();
        let first = self.exclusive_at_end.len() - self.uninitialized_at_end.len();
        remap_from(&mut self.exclusive_at_end, first, &new_indices);
        self.uninitialized_at_end.clear();
        let first = self.parallel.len() - self.uninitialized_parallel.len();
        remap_from(&mut self.parallel, first, &new_indices);
        self.uninitialized_parallel.clear();
        proof {
            let nidx = new_indices@.map_values(|x: usize| x as int);
            assert(nidx == w.2);
            assert forall|g: Group| #[trigger] self.uninitialized(g).len() == 0 && group_initialized(
                self.group(g),
                orig.group(g),
                orig.group(g).len() - orig.uninitialized(g).len(),
                w.2,
            ) by {
                match g {
                    Group::AtStart => {},
                    Group::BeforeCommands => {},
                    Group::AtEnd => {},
                    Group::Parallel => {},
                }
            }
            assert forall|g: Group| #[trigger] group_wf(self.group(g), self.uninitialized(g), self.run_criteria@.len(), self.settled_criteria()) by {
                assert(group_wf(orig.group(g), orig.uninitialized(g), n as nat, orig.settled_criteria()));
                assert(self.uninitialized(g) =~= Seq::<usize>::empty());
                lemma_initialized_group_wf(self.group(g), orig.group(g), orig.uninitialized(g), n as nat, orig.settled_criteria(), w.2, w.3);
            }
        }
        Ok(())
    }
}


/// Whether `order` lists each index below `n` exactly once.
pub open spec fn is_permutation(order: Seq<usize>, n: nat) -> bool {
    &&& order.len() == n
    &&& forall|k: int| 0 <= k < n ==> (#[trigger] order[k]) < n
    &&& forall|a: int, b: int| 0 <= a < n && 0 <= b < n && a != b ==> order[a] != order[b]
}

/// Rearranges `v` so that its `k`-th element is the `order[k]`-th one before.
pub fn permute<T>(v: &mut Vec<T>, order: &Vec<usize>)
    requires
        is_permutation(order@, old(v)@.len()),
    ensures
        final(v)@.len() == old(v)@.len(),
        forall|k: int| 0 <= k < old(v)@.len() ==> #[trigger] final(v)@[k] == old(v)@[order@[k] as int],
{
    let ghost orig = v@;
    let n = v.len();
    let mut temp: Vec<Option<T>> = Vec::new();
    let mut i: usize = 0;
    while i < n
        invariant
            n == orig.len(),
            i <= n,
            v@ == orig.subrange(i as int, n as int),
            temp@.len() == i,
            forall|q: int| 0 <= q < i ==> #[trigger] temp@[q] == Some(orig[q]),
        decreases n - i,
    {
        let x = v.remove(0);
        temp.push(Some(x));
        proof {
            assert(v@ =~= orig.subrange(i + 1, n as int));
        }
        i += 1;
    }
    let mut k: usize = 0;
    while k < n
        invariant
            n == orig.len(),
            is_permutation(order@, n as nat),
            k <= n,
            temp@.len() == n,
            v@.len() == k,
            forall|q: int| 0 <= q < k ==> #[trigger] v@[q] == orig[order@[q] as int],
            forall|q: int| 0 <= q < n ==> (#[trigger] temp@[q] is Some ==> temp@[q] == Some(orig[q])),
            forall|q: int| k <= q < n ==> #[trigger] temp@[order@[q] as int] is Some,
        decreases n - k,
    {
        let index = order[k];
        let x = temp[index].take();
        proof {
            assert forall|q: int| k + 1 <= q < n implies #[trigger] temp@[order@[q] as int] is Some by {
                assert(order@[q] != order@[k as int]);
            }
        }
        v.push(x.unwrap());
        k += 1;
    }
}


/// `deps` lists, once each, the positions in `order` of the systems that system `i` must run
/// after.
pub open spec fn dependency_positions(deps: Seq<usize>, systems: Seq<SystemContainer>, i: int, order: Seq<usize>) -> bool {
    &&& deps.no_duplicates()
    &&& forall|p: usize| #[trigger] deps.contains(p) <==> (p < order.len() && depends_on(systems, i, order[p as int] as int))
}

/// Whether a system names by label a run criteria that `labels` does not know.
pub open spec fn label_missing(c: SystemContainer, labels: Map<u64, usize>) -> bool {
    c.run_criteria_label matches Some(l) && !labels.contains_key(l)
}

/// `new` is system `i` of `systems` once processed: its run criteria index resolved from its
/// run criteria label (if any) and its dependencies set to the positions in `order` of the
/// systems it must run after.
pub open spec fn processed(new: SystemContainer, i: int, systems: Seq<SystemContainer>, order: Seq<usize>, labels: Map<u64, usize>) -> bool {
    let old = systems[i];
    &&& new.system == old.system
    &&& new.deps == old.deps
    &&& new.run_criteria_label == old.run_criteria_label
    &&& new.should_run == old.should_run
    &&& new.run_criteria_index == match old.run_criteria_label {
        Some(l) => Some(labels[l]),
        None => old.run_criteria_index,
    }
    &&& dependency_positions(new.dependencies@, systems, i, order)
}

/// The positions in `order` of the systems that system `i` must run after; `inverse` gives the
/// position of each system in `order`.
#[verifier::spinoff_prover]
fn dependencies_of(systems: &Vec<SystemContainer>, i: usize, order: &Vec<usize>, inverse: &Vec<usize>) -> (deps: Vec<usize>)
    requires
        i < systems@.len(),
        is_permutation(order@, systems@.len()),
        inverse@.len() == systems@.len(),
        forall|j: int| 0 <= j < systems@.len() ==> #[trigger] inverse@[j] < systems@.len() && order@[inverse@[j] as int] == j,
    ensures
        dependency_positions(deps@, systems@, i as int, order@),
{
    let n = systems.len();
    let mut deps: Vec<usize> = Vec::new();
    let mut j: usize = 0;
    while j < n
        invariant
            n == systems@.len(),
            i < n,
            j <= n,
            is_permutation(order@, n as nat),
            inverse@.len() == n,
            forall|q: int| 0 <= q < n ==> #[trigger] inverse@[q] < n && order@[inverse@[q] as int] == q,
            deps@.no_duplicates(),
            forall|p: usize| #[trigger] deps@.contains(p) <==> (p < n && order@[p as int] < j && depends_on(systems@, i as int, order@[p as int] as int)),
        decreases n - j,
    {
        if depends(systems, i, j) {
            let p = inverse[j];
            proof {
                assert(inverse@[j as int] < n);
                assert(order@[p as int] == j);
                assert(!deps@.contains(p));
            }
            let ghost before = deps@;
            deps.push(p);
            proof {
                assert(deps@.drop_last() =~= before);
                assert forall|x: usize| #[trigger] deps@.contains(x) <==> (x < n && order@[x as int] < j + 1 && depends_on(systems@, i as int, order@[x as int] as int)) by {
                    if deps@.contains(x) && x != p {
                        let k = choose|k: int| 0 <= k < deps@.len() && deps@[k] == x;
                        assert(deps@.drop_last()[k] == x);
                    }
                    if x < n && order@[x as int] < j + 1 && depends_on(systems@, i as int, order@[x as int] as int) && order@[x as int] != j {
                        assert(deps@.drop_last().contains(x));
                    }
                    if x < n && order@[x as int] == j {
                        assert(order@[x as int] == order@[p as int]);
                        assert(x == p);
                        assert(deps@.last() == p);
                    }
                }
            }
        }
        j += 1;
    }
    proof {
        assert forall|p: usize| #[trigger] deps@.contains(p) <==> (p < order@.len() && depends_on(systems@, i as int, order@[p as int] as int)) by {
            if p < n {
                assert(order@[p as int] < n);
            }
        }
    }
    deps
}


/// `new` is the group `old` processed: sorted in a topological order, each system's run
/// criteria label resolved through `labels` and its dependencies set.
pub open spec fn group_processed(new: Seq<SystemContainer>, old: Seq<SystemContainer>, labels: Map<u64, usize>) -> bool {
    &&& exists|order: Seq<usize>| #![trigger is_topological(old, order)] {
        &&& is_topological(old, order)
        &&& new.len() == old.len()
        &&& forall|k: int| 0 <= k < order.len() ==> #[trigger] processed(new[k], order[k] as int, old, order, labels)
    }
    &&& forall|i: int| 0 <= i < old.len() ==> !label_missing(#[trigger] old[i], labels)
}

/// Whether the group `old` can be processed: it has a topological order and every run criteria
/// label it names is known.
pub open spec fn group_ok(old: Seq<SystemContainer>, labels: Map<u64, usize>) -> bool {
    &&& exists|order: Seq<usize>| is_topological(old, order)
    &&& forall|i: int| 0 <= i < old.len() ==> !label_missing(#[trigger] old[i], labels)
}

/// Processing group `g`, holding `old`, fails with `e`: a dependency cycle when it has no
/// topological order, otherwise the first run criteria label it names that is not known.
pub open spec fn group_fails(old: Seq<SystemContainer>, labels: Map<u64, usize>, g: Group, e: StageError) -> bool {
    match e {
        StageError::DependencyCycle(h) => {
            &&& h == Some(g)
            &&& forall|order: Seq<usize>| !is_topological(old, order)
        },
        StageError::MissingRunCriteria(l) => {
            &&& exists|order: Seq<usize>| is_topological(old, order)
            &&& exists|i: int| {
                &&& 0 <= i < old.len()
                &&& #[trigger] old[i].run_criteria_label == Some(l)
                &&& !labels.contains_key(l)
                &&& forall|j: int| 0 <= j < i ==> !label_missing(#[trigger] old[j], labels)
            }
        },
        _ => false,
    }
}

/// The position of each index in `order`.
fn inverse_of(order: &Vec<usize>, n: usize) -> (inverse: Vec<usize>)
    requires
        is_permutation(order@, n as nat),
        forall|i: int| 0 <= i < n ==> #[trigger] order@.contains(i as usize),
    ensures
        inverse@.len() == n,
        forall|j: int| 0 <= j < n ==> #[trigger] inverse@[j] < n && order@[inverse@[j] as int] == j,
{
    let mut inverse: Vec<usize> = vec![0; n];
    let mut p: usize = 0;
    while p < n
        invariant
            is_permutation(order@, n as nat),
            p <= n,
            inverse@.len() == n,
            forall|q: int| 0 <= q < p ==> #[trigger] inverse@[order@[q] as int] == q,
        decreases n - p,
    {
        let j = order[p];
        inverse.set(j, p);
        proof {
            assert forall|q: int| 0 <= q < p + 1 implies #[trigger] inverse@[order@[q] as int] == q by {
                if q < p {
                    assert(order@[q] != order@[p as int]);
                }
            }
        }
        p += 1;
    }
    proof {
        assert forall|j: int| 0 <= j < n implies #[trigger] inverse@[j] < n && order@[inverse@[j] as int] == j by {
            assert(order@.contains(j as usize));
            let q = choose|q: int| 0 <= q < order@.len() && order@[q] == j as usize;
            assert(inverse@[order@[q] as int] == q);
        }
    }
    inverse
}

/// Sorts the systems of a group in a topological order of their ordering constraints, resolves
/// their run criteria labels to indices through `labels`, and sets their dependencies, or says
/// why that fails.
fn process_or_refuse(systems: &mut Vec<SystemContainer>, labels: &KeyMap<usize>, group: Group) -> (r: Result<(), StageError>)
    requires
        labels.wf(),
    ensures
        match r {
            Ok(_) => group_processed(final(systems)@, old(systems)@, labels@),
            Err(e) => group_fails(old(systems)@, labels@, group, e) && *final(systems) == *old(systems),
        },
{
    let order = match topological_order(systems) {
        Ok(order) => order,
        Err(_) => {
            return Err(StageError::DependencyCycle(Some(group)));
        },
    };
    let n = systems.len();
    let inverse = inverse_of(&order, n);
    let mut i: usize = 0;
    while i < n
        invariant
            n == systems@.len(),
            i <= n,
            labels.wf(),
            forall|j: int| 0 <= j < i ==> !label_missing(#[trigger] systems@[j], labels@),
            *systems == *old(systems),
            is_topological(systems@, order@),
        decreases n - i,
    {
        if let Some(l) = systems[i].run_criteria_label {
            if !labels.contains_key(l) {
                proof {
                    assert(systems@[i as int].run_criteria_label == Some(l));
                    assert(is_topological(old(systems)@, order@));
                }
                return Err(StageError::MissingRunCriteria(l));
            }
        }
        i += 1;
    }
    let ghost orig = systems@;
    let mut i: usize = 0;
    while i < n
        invariant
            n == systems@.len(),
            n == orig.len(),
            i <= n,
            labels.wf(),
            is_topological(orig, order@),
            is_permutation(order@, n as nat),
            inverse@.len() == n,
            forall|j: int| 0 <= j < n ==> #[trigger] inverse@[j] < n && order@[inverse@[j] as int] == j,
            forall|j: int| 0 <= j < n ==> !label_missing(#[trigger] orig[j], labels@),
            forall|j: int| 0 <= j < i ==> #[trigger] processed(systems@[j], j, orig, order@, labels@),
            forall|j: int| i <= j < n ==> #[trigger] systems@[j] == orig[j],
            forall|j: int| 0 <= j < n ==> #[trigger] systems@[j].deps == orig[j].deps,
        decreases n - i,
    {
        let deps = dependencies_of(systems, i, &order, &inverse);
        proof {
            assert forall|x: int| 0 <= x < n implies #[trigger] depends_on(systems@, i as int, x) == depends_on(orig, i as int, x) by {
                assert(systems@[x].deps == orig[x].deps);
                assert(systems@[i as int].deps == orig[i as int].deps);
            }
            assert(dependency_positions(deps@, orig, i as int, order@));
        }
        if let Some(l) = systems[i].run_criteria_label {
            let index = *labels.get(l).unwrap();
            systems[i].run_criteria_index = Some(index);
        }
        systems[i].dependencies = deps;
        i += 1;
    }
    let ghost mid = systems@;
    permute(systems, &order);
    proof {
        assert forall|k: int| 0 <= k < order@.len() implies #[trigger] processed(systems@[k], order@[k] as int, orig, order@, labels@) by {
            assert(systems@[k] == mid[order@[k] as int]);
            assert(processed(mid[order@[k] as int], order@[k] as int, orig, order@, labels@));
        }
    }
    Ok(())
}


/// The label each labelled run criteria is known by, mapped to its position in the new order
/// (`inverse` gives each run criteria's position); of run criteria sharing a label, the last one
/// among the first `k` wins.
pub open spec fn criteria_labels(criteria: Seq<RunCriteriaContainer>, inverse: Seq<int>, k: nat) -> Map<u64, usize>
    decreases k,
{
    if k == 0 {
        Map::empty()
    } else {
        let m = criteria_labels(criteria, inverse, (k - 1) as nat);
        match criteria[k - 1].label {
            Some(l) => m.insert(l, inverse[k - 1] as usize),
            None => m,
        }
    }
}

/// Whether a piped run criteria has no run criteria to take its input from.
pub open spec fn pipe_missing(c: RunCriteriaContainer, labels: Map<u64, usize>) -> bool {
    c.piped && (c.after@.len() == 0 || !labels.contains_key(c.after@[0]))
}

/// `new` is run criteria `old` with its pipe input resolved through `labels`.
pub open spec fn criteria_resolved(new: RunCriteriaContainer, old: RunCriteriaContainer, labels: Map<u64, usize>) -> bool {
    &&& new.system == old.system
    &&& new.label == old.label
    &&& new.labels == old.labels
    &&& new.before == old.before
    &&& new.after == old.after
    &&& new.piped == old.piped
    &&& new.should_run == old.should_run
    &&& new.input == if old.piped { labels[old.after@[0]] } else { old.input }
}

/// Whether `inverse` gives the position of each index in `order`.
pub open spec fn inverse_of_order(order: Seq<usize>, inverse: Seq<int>) -> bool {
    &&& inverse.len() == order.len()
    &&& forall|j: int| 0 <= j < order.len() ==> 0 <= #[trigger] inverse[j] < order.len() && order[inverse[j]] == j
}

impl SystemStage {
    /// No run criteria and no system waits for initialization.
    pub open spec fn fully_initialized(&self) -> bool {
        &&& self.uninitialized_run_criteria@.len() == 0
        &&& self.uninitialized_at_start@.len() == 0
        &&& self.uninitialized_before_commands@.len() == 0
        &&& self.uninitialized_at_end@.len() == 0
        &&& self.uninitialized_parallel@.len() == 0
    }

    /// `new` is `old` with its run criteria in the topological order `order`, pipe inputs
    /// resolved through `labels`, and every system's run criteria index following its run
    /// criteria to its new position.
    pub open spec fn criteria_reordered(new: &Self, old: &Self, order: Seq<usize>, inverse: Seq<int>, labels: Map<u64, usize>) -> bool {
        let rc = old.run_criteria@;
        &&& is_topological(rc, order)
        &&& inverse_of_order(order, inverse)
        &&& labels == criteria_labels(rc, inverse, rc.len())
        &&& forall|j: int| 0 <= j < rc.len() ==> !pipe_missing(#[trigger] rc[j], labels)
        &&& new.run_criteria@.len() == rc.len()
        &&& forall|k: int| 0 <= k < rc.len() ==> criteria_resolved(#[trigger] new.run_criteria@[k], rc[order[k] as int], labels)
        &&& forall|g: Group| #[trigger] new.group(g).len() == old.group(g).len() && forall|i: int| 0 <= i < old.group(g).len() ==> reindexed(
            old.group(g)[i],
            #[trigger] new.group(g)[i],
            mapped_index(old.group(g)[i].run_criteria_index, inverse),
        )
        &&& new.uninitialized_run_criteria == old.uninitialized_run_criteria
        &&& forall|g: Group| #[trigger] new.uninitialized(g) == old.uninitialized(g)
        &&& new.same_settings(old)
        &&& new.systems_modified == old.systems_modified
    }
}

/// Builds the map from run criteria labels to their new positions.
fn build_criteria_labels(criteria: &Vec<RunCriteriaContainer>, inverse: &Vec<usize>) -> (labels: KeyMap<usize>)
    requires
        inverse@.len() == criteria@.len(),
    ensures
        labels.wf(),
        labels@ == criteria_labels(criteria@, inverse@.map_values(|x: usize| x as int), criteria@.len()),
{
    let ghost inv = inverse@.map_values(|x: usize| x as int);
    let mut labels: KeyMap<usize> = KeyMap::new();
    let mut i: usize = 0;
    while i < criteria.len()
        invariant
            inverse@.len() == criteria@.len(),
            inv == inverse@.map_values(|x: usize| x as int),
            i <= criteria@.len(),
            labels.wf(),
            labels@ == criteria_labels(criteria@, inv, i as nat),
        decreases criteria@.len() - i,
    {
        if let Some(l) = criteria[i].label {
            labels.insert(l, inverse[i]);
        }
        i += 1;
    }
    labels
}


proof fn lemma_reindexed_group_wf(new: Seq<SystemContainer>, old: Seq<SystemContainer>, n: nat, inverse: Seq<int>)
    requires
        group_wf(old, Seq::<usize>::empty(), n, n as int),
        new.len() == old.len(),
        forall|i: int| 0 <= i < old.len() ==> reindexed(old[i], #[trigger] new[i], mapped_index(old[i].run_criteria_index, inverse)),
        inverse.len() == n,
        forall|j: int| 0 <= j < n ==> 0 <= #[trigger] inverse[j] < n,
    ensures
        group_wf(new, Seq::<usize>::empty(), n, n as int),
{
    assert forall|i: int| 0 <= i < new.len() implies index_below(#[trigger] new[i], n) by {
        assert(index_below(old[i], n));
        assert(reindexed(old[i], new[i], mapped_index(old[i].run_criteria_index, inverse)));
    }
}

impl SystemStage {
    /// Processing the run criteria of `old` fails with `e`: a dependency cycle when they have no
    /// topological order, otherwise the first piped run criteria with no input to take.
    pub open spec fn criteria_fails(old: &Self, e: StageError) -> bool {
        let rc = old.run_criteria@;
        match e {
            StageError::DependencyCycle(g) => {
                &&& g is None
                &&& forall|order: Seq<usize>| !is_topological(rc, order)
            },
            StageError::MissingPipeInput(i) => exists|order: Seq<usize>, inverse: Seq<int>| #![trigger is_topological(rc, order), inverse_of_order(order, inverse)] {
                let labels = criteria_labels(rc, inverse, rc.len());
                &&& is_topological(rc, order)
                &&& inverse_of_order(order, inverse)
                &&& i < rc.len()
                &&& pipe_missing(rc[i as int], labels)
                &&& forall|j: int| 0 <= j < i ==> !pipe_missing(#[trigger] rc[j], labels)
            },
            _ => false,
        }
    }

    /// Sorts the run criteria in a topological order of their ordering constraints, resolves the
    /// input of piped run criteria, and makes every system follow its run criteria to its new
    /// position, or says why that fails. Returns the position of each run criteria label.
    fn criteria_or_refuse(&mut self) -> (r: Result<KeyMap<usize>, StageError>)
        requires
            old(self).wf(),
            old(self).fully_initialized(),
        ensures
            final(self).wf(),
            final(self).fully_initialized(),
            match r {
                Ok(labels) => {
                    &&& labels.wf()
                    &&& exists|order: Seq<usize>, inverse: Seq<int>| Self::criteria_reordered(final(self), old(self), order, inverse, labels@)
                },
                Err(e) => Self::criteria_fails(old(self), e) && *final(self) == *old(self),
            },
    {
        let order = match topological_order(&self.run_criteria) {
            Ok(order) => order,
            Err(_) => {
                return Err(StageError::DependencyCycle(None));
            },
        };
        let n = self.run_criteria.len();
        let inverse = inverse_of(&order, n);
        let ghost inv = inverse@.map_values(|x: usize| x as int);
        let labels = build_criteria_labels(&self.run_criteria, &inverse);
        proof {
            assert(inverse_of_order(order@, inv));
        }
        let mut i: usize = 0;
        while i < n
            invariant
                n == self.run_criteria@.len(),
                i <= n,
                labels.wf(),
                forall|j: int| 0 <= j < i ==> !pipe_missing(#[trigger] self.run_criteria@[j], labels@),
                *self == *old(self),
                old(self).wf(),
                old(self).fully_initialized(),
                is_topological(self.run_criteria@, order@),
                inverse_of_order(order@, inv),
                labels@ == criteria_labels(self.run_criteria@, inv, n as nat),
            decreases n - i,
        {
            if self.run_criteria[i].piped {
                let missing = if self.run_criteria[i].after.len() == 0 {
                    true
                } else {
                    !labels.contains_key(self.run_criteria[i].after[0])
                };
                if missing {
                    proof {
                        assert(pipe_missing(self.run_criteria@[i as int], labels@));
                    }
                    return Err(StageError::MissingPipeInput(i));
                }
            }
            i += 1;
        }
        let ghost orig = *self;
        let mut i: usize = 0;
        while i < n
            invariant
                n == self.run_criteria@.len(),
                n == orig.run_criteria@.len(),
                i <= n,
                labels.wf(),
                forall|j: int| 0 <= j < n ==> !pipe_missing(#[trigger] orig.run_criteria@[j], labels@),
                forall|j: int| 0 <= j < i ==> criteria_resolved(#[trigger] self.run_criteria@[j], orig.run_criteria@[j], labels@),
                forall|j: int| i <= j < n ==> #[trigger] self.run_criteria@[j] == orig.run_criteria@[j],
                self.same_groups(&orig),
                self.same_settings(&orig),
                self.systems_modified == orig.systems_modified,
                self.uninitialized_run_criteria == orig.uninitialized_run_criteria,
            decreases n - i,
        {
            if self.run_criteria[i].piped {
                proof {
                    assert(!pipe_missing(orig.run_criteria@[i as int], labels@));
                }
                let label = self.run_criteria[i].after[0];
                let input = *labels.get(label).unwrap();
                self.run_criteria[i].input = input;
            }
            i += 1;
        }
        proof {
            assert(group_wf(orig.group(Group::AtStart), orig.uninitialized(Group::AtStart), n as nat, orig.settled_criteria()));
            assert(group_wf(orig.group(Group::BeforeCommands), orig.uninitialized(Group::BeforeCommands), n as nat, orig.settled_criteria()));
            assert(group_wf(orig.group(Group::AtEnd), orig.uninitialized(Group::AtEnd), n as nat, orig.settled_criteria()));
            assert(group_wf(orig.group(Group::Parallel), orig.uninitialized(Group::Parallel), n as nat, orig.settled_criteria()));
        }
        remap_from(&mut self.exclusive_at_end, 0, &inverse);
        remap_from(&mut self.exclusive_at_start, 0, &inverse);
        remap_from(&mut self.exclusive_before_commands, 0, &inverse);
        remap_from(&mut self.parallel, 0, &inverse);
        let ghost mid = self.run_criteria@;
        permute(&mut self.run_criteria, &order);
        proof {
            assert forall|k: int| 0 <= k < n implies criteria_resolved(#[trigger] self.run_criteria@[k], orig.run_criteria@[order@[k] as int], labels@) by {
                assert(self.run_criteria@[k] == mid[order@[k] as int]);
            }
            assert forall|g: Group| #[trigger] self.uninitialized(g) == orig.uninitialized(g) by {
                match g {
                    Group::AtStart => {},
                    Group::BeforeCommands => {},
                    Group::AtEnd => {},
                    Group::Parallel => {},
                }
            }
            assert forall|g: Group| #[trigger] self.group(g).len() == orig.group(g).len() && forall|i: int| 0 <= i < orig.group(g).len() ==> reindexed(
                orig.group(g)[i],
                #[trigger] self.group(g)[i],
                mapped_index(orig.group(g)[i].run_criteria_index, inv),
            ) by {
                match g {
                    Group::AtStart => {},
                    Group::BeforeCommands => {},
                    Group::AtEnd => {},
                    Group::Parallel => {},
                }
            }
            assert(Self::criteria_reordered(self, &orig, order@, inv, labels@));
            assert forall|g: Group| #[trigger] group_wf(self.group(g), self.uninitialized(g), self.run_criteria@.len(), self.settled_criteria()) by {
                assert(group_wf(orig.group(g), orig.uninitialized(g), n as nat, orig.settled_criteria()));
                assert(orig.uninitialized(g) =~= Seq::<usize>::empty());
                assert(self.uninitialized(g) =~= Seq::<usize>::empty());
                lemma_reindexed_group_wf(self.group(g), orig.group(g), n as nat, inv);
            }
        }
        Ok(labels)
    }
}


proof fn lemma_criteria_labels_below(criteria: Seq<RunCriteriaContainer>, inverse: Seq<int>, k: nat, n: int)
    requires
        k <= criteria.len(),
        inverse.len() == criteria.len(),
        n <= usize::MAX,
        forall|j: int| 0 <= j < inverse.len() ==> 0 <= #[trigger] inverse[j] < n,
    ensures
        forall|l: u64| #[trigger] criteria_labels(criteria, inverse, k).contains_key(l) ==> criteria_labels(criteria, inverse, k)[l] < n,
    decreases k,
{
    if k > 0 {
        lemma_criteria_labels_below(criteria, inverse, (k - 1) as nat, n);
        let x = inverse[k - 1];
        assert(0 <= x < n);
        assert((x as usize) as int == x);
        let prev = criteria_labels(criteria, inverse, (k - 1) as nat);
        let cur = criteria_labels(criteria, inverse, k);
        assert forall|l: u64| #[trigger] cur.contains_key(l) implies cur[l] < n by {
            match criteria[k - 1].label {
                Some(m) => {
                    if l != m {
                        assert(prev.contains_key(l));
                    }
                },
                None => {},
            }
        }
    }
}

proof fn lemma_processed_ok(new: Seq<SystemContainer>, old: Seq<SystemContainer>, labels: Map<u64, usize>)
    requires
        group_processed(new, old, labels),
    ensures
        group_ok(old, labels),
{
    let order = choose|order: Seq<usize>| #![trigger is_topological(old, order)] {
        &&& is_topological(old, order)
        &&& new.len() == old.len()
        &&& forall|k: int| 0 <= k < order.len() ==> #[trigger] processed(new[k], order[k] as int, old, order, labels)
    };
    assert(is_topological(old, order));
}

proof fn lemma_processed_group_wf(new: Seq<SystemContainer>, old: Seq<SystemContainer>, labels: Map<u64, usize>, n: nat)
    requires
        group_processed(new, old, labels),
        forall|i: int| 0 <= i < old.len() ==> index_below(#[trigger] old[i], n),
        forall|l: u64| #[trigger] labels.contains_key(l) ==> labels[l] < n,
    ensures
        group_wf(new, Seq::<usize>::empty(), n, n as int),
{
    let order = choose|order: Seq<usize>| #![trigger is_topological(old, order)] {
        &&& is_topological(old, order)
        &&& new.len() == old.len()
        &&& forall|k: int| 0 <= k < order.len() ==> #[trigger] processed(new[k], order[k] as int, old, order, labels)
    };
    assert forall|k: int| 0 <= k < new.len() implies index_below(#[trigger] new[k], n) by {
        assert(processed(new[k], order[k] as int, old, order, labels));
        assert(index_below(old[order[k] as int], n));
        assert(!label_missing(old[order[k] as int], labels));
    }
}

impl SystemStage {
    /// `new` is `old` rebuilt: `mid` is `old` with its run criteria reordered (giving `labels`),
    /// and `new` is `mid` with each group processed.
    pub open spec fn rebuilt(new: &Self, mid: &Self, old: &Self, labels: Map<u64, usize>) -> bool {
        &&& exists|order: Seq<usize>, inverse: Seq<int>| Self::criteria_reordered(mid, old, order, inverse, labels)
        &&& new.run_criteria@ == mid.run_criteria@
        &&& forall|g: Group| #[trigger] group_processed(new.group(g), mid.group(g), labels)
    }

    /// Rebuilding `old` fails with `e` in a group: `mid` is `old` with its run criteria reordered
    /// (giving `labels`), and the groups are processed in the order parallel, at start, before
    /// commands, at end, up to the first that fails with `e`.
    pub open spec fn rebuild_fails(mid: &Self, old: &Self, labels: Map<u64, usize>, e: StageError) -> bool {
        &&& exists|order: Seq<usize>, inverse: Seq<int>| Self::criteria_reordered(mid, old, order, inverse, labels)
        &&& {
            ||| group_fails(mid.parallel@, labels, Group::Parallel, e)
            ||| group_ok(mid.parallel@, labels) && group_fails(mid.exclusive_at_start@, labels, Group::AtStart, e)
            ||| group_ok(mid.parallel@, labels) && group_ok(mid.exclusive_at_start@, labels)
                && group_fails(mid.exclusive_before_commands@, labels, Group::BeforeCommands, e)
            ||| group_ok(mid.parallel@, labels) && group_ok(mid.exclusive_at_start@, labels)
                && group_ok(mid.exclusive_before_commands@, labels)
                && group_fails(mid.exclusive_at_end@, labels, Group::AtEnd, e)
        }
    }

    /// The number of systems the stage holds.
    pub open spec fn system_count(&self) -> nat {
        self.exclusive_at_start@.len() + self.exclusive_before_commands@.len() + self.exclusive_at_end@.len() + self.parallel@.len()
    }

    /// Puts the run criteria and each group of systems in a topological order of their ordering
    /// constraints and resolves the run criteria of every system, or says why that fails.
    fn rebuild_or_refuse(&mut self) -> (r: Result<(), StageError>)
        requires
            old(self).wf(),
            old(self).fully_initialized(),
            old(self).system_count() < 0x1fff_ffff,
        ensures
            final(self).wf(),
            final(self).fully_initialized(),
            final(self).same_settings(old(self)),
            final(self).systems_modified == old(self).systems_modified,
            match r {
                Ok(_) => exists|mid: Self, labels: Map<u64, usize>| Self::rebuilt(final(self), &mid, old(self), labels),
                Err(e) => {
                    ||| Self::criteria_fails(old(self), e)
                    ||| exists|mid: Self, labels: Map<u64, usize>| Self::rebuild_fails(&mid, old(self), labels, e)
                },
            },
    {
        let labels = match self.criteria_or_refuse() {
            Ok(labels) => labels,
            Err(e) => {
                return Err(e);
            },
        };
        let len = self.run_criteria.len();
        let ghost mid = *self;
        let ghost n = self.run_criteria@.len();
        proof {
            let (order, inverse) = choose|order: Seq<usize>, inverse: Seq<int>| Self::criteria_reordered(&mid, old(self), order, inverse, labels@);
            lemma_criteria_labels_below(old(self).run_criteria@, inverse, n, n as int);
            assert(group_wf(mid.group(Group::AtStart), mid.uninitialized(Group::AtStart), mid.run_criteria@.len(), mid.settled_criteria()));
            assert(group_wf(mid.group(Group::BeforeCommands), mid.uninitialized(Group::BeforeCommands), mid.run_criteria@.len(), mid.settled_criteria()));
            assert(group_wf(mid.group(Group::AtEnd), mid.uninitialized(Group::AtEnd), mid.run_criteria@.len(), mid.settled_criteria()));
            assert(group_wf(mid.group(Group::Parallel), mid.uninitialized(Group::Parallel), mid.run_criteria@.len(), mid.settled_criteria()));
        }
        let r1 = process_or_refuse(&mut self.parallel, &labels, Group::Parallel);
        if let Err(e) = r1 {
            proof {
                self.lemma_rebuild_wf(&mid, labels@, n);
                assert(Self::rebuild_fails(&mid, old(self), labels@, e));
            }
            return Err(e);
        }
        proof { lemma_processed_ok(self.parallel@, mid.parallel@, labels@); }
        let r2 = process_or_refuse(&mut self.exclusive_at_start, &labels, Group::AtStart);
        if let Err(e) = r2 {
            proof {
                self.lemma_rebuild_wf(&mid, labels@, n);
                assert(Self::rebuild_fails(&mid, old(self), labels@, e));
            }
            return Err(e);
        }
        proof { lemma_processed_ok(self.exclusive_at_start@, mid.exclusive_at_start@, labels@); }
        let r3 = process_or_refuse(&mut self.exclusive_before_commands, &labels, Group::BeforeCommands);
        if let Err(e) = r3 {
            proof {
                self.lemma_rebuild_wf(&mid, labels@, n);
                assert(Self::rebuild_fails(&mid, old(self), labels@, e));
            }
            return Err(e);
        }
        proof { lemma_processed_ok(self.exclusive_before_commands@, mid.exclusive_before_commands@, labels@); }
        let r4 = process_or_refuse(&mut self.exclusive_at_end, &labels, Group::AtEnd);
        if let Err(e) = r4 {
            proof {
                self.lemma_rebuild_wf(&mid, labels@, n);
                assert(Self::rebuild_fails(&mid, old(self), labels@, e));
            }
            return Err(e);
        }
        proof {
            self.lemma_rebuild_wf(&mid, labels@, n);
            assert forall|g: Group| #[trigger] group_processed(self.group(g), mid.group(g), labels@) by {
                match g {
                    Group::AtStart => {},
                    Group::BeforeCommands => {},
                    Group::AtEnd => {},
                    Group::Parallel => {},
                }
            }
            assert(Self::rebuilt(self, &mid, old(self), labels@));
        }
        Ok(())
    }

    /// A stage whose groups are each either those of `mid` or processed from them is well formed.
    proof fn lemma_rebuild_wf(&self, mid: &Self, labels: Map<u64, usize>, n: nat)
        requires
            mid.wf(),
            mid.fully_initialized(),
            n == mid.run_criteria@.len(),
            self.run_criteria@ == mid.run_criteria@,
            self.uninitialized_run_criteria@ == mid.uninitialized_run_criteria@,
            forall|g: Group| #[trigger] self.uninitialized(g) == mid.uninitialized(g),
            forall|l: u64| #[trigger] labels.contains_key(l) ==> labels[l] < n,
            forall|g: Group| self.group(g) == mid.group(g) || #[trigger] group_processed(self.group(g), mid.group(g), labels),
        ensures
            self.wf(),
            self.fully_initialized(),
    {
        assert forall|g: Group| #[trigger] group_wf(self.group(g), self.uninitialized(g), self.run_criteria@.len(), self.settled_criteria()) by {
            assert(group_wf(mid.group(g), mid.uninitialized(g), n, mid.settled_criteria()));
            assert(mid.uninitialized(g) =~= Seq::<usize>::empty()) by {
                match g {
                    Group::AtStart => {},
                    Group::BeforeCommands => {},
                    Group::AtEnd => {},
                    Group::Parallel => {},
                }
            }
            if self.group(g) != mid.group(g) {
                lemma_processed_group_wf(self.group(g), mid.group(g), labels, n);
            }
        }
        assert(self.uninitialized(Group::AtStart).len() == 0);
        assert(self.uninitialized(Group::BeforeCommands).len() == 0);
        assert(self.uninitialized(Group::AtEnd).len() == 0);
        assert(self.uninitialized(Group::Parallel).len() == 0);
    }
}


/// The ticks that must pass between two checks of the change ticks: an eighth of the `u32`
/// range, since a stage holds fewer systems than that.
pub const MIN_TIME_SINCE_LAST_CHECK: u32 = 536870911u32;

/// What a stage does after its run criteria answered.
#[derive(Debug, Clone, Copy, PartialEq, Eq, Structural)]
pub enum StageStep {
    /// The stage is done.
    Stop,
    /// Ask the run criteria again without running anything.
    AskAgain,
    /// Run the systems, then ask the run criteria again.
    RunAndAskAgain,
    /// Run the systems, then the stage is done.
    RunOnce,
}

/// What to do with a run criteria once the systems have run.
#[derive(Debug, Clone, Copy, PartialEq, Eq, Structural)]
pub enum CriteriaAction {
    /// Its answer stays.
    Keep,
    /// It answered yes once: it now answers no.
    SetNo,
    /// Run it again, with the answer of its input when it is piped.
    Evaluate(Option<ShouldRun>),
}

/// What the stage does when its own run criteria answered `should_run`.
pub fn stage_step(should_run: ShouldRun) -> (step: StageStep)
    ensures
        step == match should_run {
            ShouldRun::No => StageStep::Stop,
            ShouldRun::NoAndCheckAgain => StageStep::AskAgain,
            ShouldRun::YesAndCheckAgain => StageStep::RunAndAskAgain,
            ShouldRun::Yes => StageStep::RunOnce,
        },
{
    match should_run {
        ShouldRun::No => StageStep::Stop,
        ShouldRun::NoAndCheckAgain => StageStep::AskAgain,
        ShouldRun::YesAndCheckAgain => StageStep::RunAndAskAgain,
        ShouldRun::Yes => StageStep::RunOnce,
    }
}

/// Whether an answer lets systems run.
pub open spec fn answers_yes(s: ShouldRun) -> bool {
    s == ShouldRun::Yes || s == ShouldRun::YesAndCheckAgain
}

/// The answer that decides whether a system runs: that of its run criteria, or `default`.
pub open spec fn system_answer(c: SystemContainer, criteria: Seq<RunCriteriaContainer>, default: ShouldRun) -> ShouldRun {
    match c.run_criteria_index {
        Some(k) => criteria[k as int].should_run,
        None => default,
    }
}

/// Whether a system runs in this pass: its run criteria (or, without one, `default`) answered
/// yes.
pub fn should_run(container: &SystemContainer, run_criteria: &Vec<RunCriteriaContainer>, default: ShouldRun) -> (r: bool)
    requires
        index_below(*container, run_criteria@.len()),
    ensures
        r == answers_yes(system_answer(*container, run_criteria@, default)),
{
    let answer = match container.run_criteria_index {
        Some(k) => run_criteria[k].should_run,
        None => default,
    };
    match answer {
        ShouldRun::Yes | ShouldRun::YesAndCheckAgain => true,
        _ => false,
    }
}

impl SystemStage {
    /// The systems of exclusive group `g` that run in this pass, in order.
    pub fn exclusive_systems_to_run(&self, g: Group, default: ShouldRun) -> (r: Vec<SystemId>)
        requires
            self.wf(),
        ensures
            r@ == self.group(g).filter(|c: SystemContainer| answers_yes(system_answer(c, self.run_criteria@, default))).map_values(|c: SystemContainer| c.system),
    {
        let systems = match g {
            Group::AtStart => &self.exclusive_at_start,
            Group::BeforeCommands => &self.exclusive_before_commands,
            Group::AtEnd => &self.exclusive_at_end,
            Group::Parallel => &self.parallel,
        };
        proof {
            assert(group_wf(self.group(g), self.uninitialized(g), self.run_criteria@.len(), self.settled_criteria()));
        }
        let ghost pred = |c: SystemContainer| answers_yes(system_answer(c, self.run_criteria@, default));
        let ghost proj = |c: SystemContainer| c.system;
        let mut r: Vec<SystemId> = Vec::new();
        let mut i: usize = 0;
        while i < systems.len()
            invariant
                systems@ == self.group(g),
                group_wf(self.group(g), self.uninitialized(g), self.run_criteria@.len(), self.settled_criteria()),
                i <= systems@.len(),
                pred == (|c: SystemContainer| answers_yes(system_answer(c, self.run_criteria@, default))),
                proj == (|c: SystemContainer| c.system),
                r@ == systems@.take(i as int).filter(pred).map_values(proj),
            decreases systems@.len() - i,
        {
            let ghost before = systems@.take(i as int);
            proof {
                assert(index_below(systems@[i as int], self.run_criteria@.len()));
                assert(systems@.take(i + 1) =~= before.push(systems@[i as int]));
                lemma_filter_push(before, pred, systems@[i as int]);
            }
            let run = should_run(&systems[i], &self.run_criteria, default);
            proof {
                let x = systems@[i as int];
                let fb = before.filter(pred);
                assert(pred(x) == run);
                assert(fb.push(x).map_values(proj) =~= fb.map_values(proj).push(proj(x)));
            }
            if run {
                r.push(systems[i].system);
            }
            proof {
                assert(r@ =~= systems@.take(i + 1).filter(pred).map_values(proj));
            }
            i += 1;
        }
        proof {
            assert(systems@.take(systems@.len() as int) =~= systems@);
        }
        r
    }

    /// Marks each parallel system as running in this pass or not.
    pub fn update_parallel_should_run(&mut self, default: ShouldRun)
        requires
            old(self).wf(),
        ensures
            final(self).wf(),
            final(self).parallel@.len() == old(self).parallel@.len(),
            forall|i: int| 0 <= i < old(self).parallel@.len() ==> {
                let (a, b) = (old(self).parallel@[i], #[trigger] final(self).parallel@[i]);
                &&& b.system == a.system
                &&& b.deps == a.deps
                &&& b.run_criteria_index == a.run_criteria_index
                &&& b.run_criteria_label == a.run_criteria_label
                &&& b.dependencies == a.dependencies
                &&& b.should_run == answers_yes(system_answer(a, old(self).run_criteria@, default))
            },
            final(self).run_criteria == old(self).run_criteria,
            final(self).exclusive_at_start == old(self).exclusive_at_start,
            final(self).exclusive_before_commands == old(self).exclusive_before_commands,
            final(self).exclusive_at_end == old(self).exclusive_at_end,
            final(self).uninitialized_run_criteria == old(self).uninitialized_run_criteria,
            final(self).uninitialized_at_start == old(self).uninitialized_at_start,
            final(self).uninitialized_before_commands == old(self).uninitialized_before_commands,
            final(self).uninitialized_at_end == old(self).uninitialized_at_end,
            final(self).uninitialized_parallel == old(self).uninitialized_parallel,
            final(self).same_settings(old(self)),
            final(self).systems_modified == old(self).systems_modified,
    {
        proof {
            assert(group_wf(self.group(Group::Parallel), self.uninitialized(Group::Parallel), self.run_criteria@.len(), self.settled_criteria()));
        }
        let n = self.parallel.len();
        let mut i: usize = 0;
        while i < n
            invariant
                n == self.parallel@.len(),
                n == old(self).parallel@.len(),
                i <= n,
                self.run_criteria == old(self).run_criteria,
                group_wf(old(self).group(Group::Parallel), old(self).uninitialized(Group::Parallel), old(self).run_criteria@.len(), old(self).settled_criteria()),
                forall|j: int| i <= j < n ==> #[trigger] self.parallel@[j] == old(self).parallel@[j],
                forall|j: int| 0 <= j < i ==> {
                    let (a, b) = (old(self).parallel@[j], #[trigger] self.parallel@[j]);
                    &&& b.system == a.system
                    &&& b.deps == a.deps
                    &&& b.run_criteria_index == a.run_criteria_index
                    &&& b.run_criteria_label == a.run_criteria_label
                    &&& b.dependencies == a.dependencies
                    &&& b.should_run == answers_yes(system_answer(a, old(self).run_criteria@, default))
                },
                self.exclusive_at_start == old(self).exclusive_at_start,
                self.exclusive_before_commands == old(self).exclusive_before_commands,
                self.exclusive_at_end == old(self).exclusive_at_end,
                self.uninitialized_run_criteria == old(self).uninitialized_run_criteria,
                self.uninitialized_at_start == old(self).uninitialized_at_start,
                self.uninitialized_before_commands == old(self).uninitialized_before_commands,
                self.uninitialized_at_end == old(self).uninitialized_at_end,
                self.uninitialized_parallel == old(self).uninitialized_parallel,
                self.same_settings(old(self)),
                self.systems_modified == old(self).systems_modified,
            decreases n - i,
        {
            proof {
                assert(index_below(old(self).parallel@[i as int], old(self).run_criteria@.len()));
            }
            let run = should_run(&self.parallel[i], &self.run_criteria, default);
            self.parallel[i].should_run = run;
            i += 1;
        }
        proof {
            let m = self.settled_criteria();
            assert(group_wf(self.group(Group::Parallel), self.uninitialized(Group::Parallel), self.run_criteria@.len(), m)) by {
                assert forall|i: int| 0 <= i < self.parallel@.len() implies index_below(#[trigger] self.parallel@[i], self.run_criteria@.len()) by {
                    assert(index_below(old(self).parallel@[i], old(self).run_criteria@.len()));
                }
                assert forall|i: int| 0 <= i < self.parallel@.len() - self.uninitialized_parallel@.len() implies index_below(#[trigger] self.parallel@[i], m as nat) by {
                    assert(index_below(old(self).parallel@[i], m as nat));
                }
            }
            assert forall|g: Group| #[trigger] group_wf(self.group(g), self.uninitialized(g), self.run_criteria@.len(), self.settled_criteria()) by {
                assert(group_wf(old(self).group(g), old(self).uninitialized(g), old(self).run_criteria@.len(), old(self).settled_criteria()));
            }
        }
    }

    /// The parallel systems marked as running, in order: those the executor runs in this pass.
    pub fn parallel_systems_to_run(&self) -> (r: Vec<SystemId>)
        ensures
            r@ == self.parallel@.filter(|c: SystemContainer| c.should_run).map_values(|c: SystemContainer| c.system),
    {
        let mut r: Vec<SystemId> = Vec::new();
        let ghost pred = |c: SystemContainer| c.should_run;
        let ghost proj = |c: SystemContainer| c.system;
        let mut i: usize = 0;
        while i < self.parallel.len()
            invariant
                i <= self.parallel@.len(),
                pred == (|c: SystemContainer| c.should_run),
                proj == (|c: SystemContainer| c.system),
                r@ == self.parallel@.take(i as int).filter(pred).map_values(proj),
            decreases self.parallel@.len() - i,
        {
            let ghost before = self.parallel@.take(i as int);
            proof {
                assert(self.parallel@.take(i + 1) =~= before.push(self.parallel@[i as int]));
                lemma_filter_push(before, pred, self.parallel@[i as int]);
            }
            proof {
                let x = self.parallel@[i as int];
                let fb = before.filter(pred);
                assert(pred(x) == x.should_run);
                assert(fb.push(x).map_values(proj) =~= fb.map_values(proj).push(proj(x)));
            }
            if self.parallel[i].should_run {
                r.push(self.parallel[i].system);
            }
            proof {
                assert(r@ =~= self.parallel@.take(i + 1).filter(pred).map_values(proj));
            }
            i += 1;
        }
        proof {
            assert(self.parallel@.take(self.parallel@.len() as int) =~= self.parallel@);
        }
        r
    }

    /// Every parallel system, in order: those whose command buffers are applied when the buffers
    /// are applied by hand.
    pub fn parallel_system_ids(&self) -> (r: Vec<SystemId>)
        ensures
            r@ == self.parallel@.map_values(|c: SystemContainer| c.system),
    {
        let mut r: Vec<SystemId> = Vec::new();
        let mut i: usize = 0;
        while i < self.parallel.len()
            invariant
                i <= self.parallel@.len(),
                r@ == self.parallel@.take(i as int).map_values(|c: SystemContainer| c.system),
            decreases self.parallel@.len() - i,
        {
            r.push(self.parallel[i].system);
            assert(self.parallel@.take(i + 1).map_values(|c: SystemContainer| c.system)
                =~= self.parallel@.take(i as int).map_values(|c: SystemContainer| c.system).push(self.parallel@[i as int].system));
            i += 1;
        }
        assert(self.parallel@.take(self.parallel@.len() as int) =~= self.parallel@);
        r
    }

    /// The parallel systems that were marked as running, whose command buffers are applied when
    /// the stage applies buffers.
    pub fn buffers_to_apply(&self) -> (r: Vec<SystemId>)
        ensures
            r@ == if self.apply_buffers {
                self.parallel@.filter(|c: SystemContainer| c.should_run).map_values(|c: SystemContainer| c.system)
            } else {
                Seq::<SystemId>::empty()
            },
    {
        if !self.apply_buffers {
            return Vec::new();
        }
        self.parallel_systems_to_run()
    }

    /// The input run criteria `index` is run with: the answer of its input criteria when piped.
    pub fn criteria_input(&self, index: usize) -> (r: Option<ShouldRun>)
        requires
            index < self.run_criteria@.len(),
            self.run_criteria@[index as int].piped ==> self.run_criteria@[index as int].input < index,
        ensures
            r == if self.run_criteria@[index as int].piped {
                Some(self.run_criteria@[self.run_criteria@[index as int].input as int].should_run)
            } else {
                None
            },
    {
        if self.run_criteria[index].piped {
            let input = self.run_criteria[index].input;
            Some(self.run_criteria[input].should_run)
        } else {
            None
        }
    }

    /// What to do with run criteria `index` once the systems have run: an answer of yes turns
    /// into no, an answer asking to be checked again makes it run again.
    pub fn criteria_action(&self, index: usize) -> (r: CriteriaAction)
        requires
            index < self.run_criteria@.len(),
            self.run_criteria@[index as int].piped ==> self.run_criteria@[index as int].input < index,
        ensures
            r == match self.run_criteria@[index as int].should_run {
                ShouldRun::No => CriteriaAction::Keep,
                ShouldRun::Yes => CriteriaAction::SetNo,
                _ => CriteriaAction::Evaluate(if self.run_criteria@[index as int].piped {
                    Some(self.run_criteria@[self.run_criteria@[index as int].input as int].should_run)
                } else {
                    None
                }),
            },
    {
        match self.run_criteria[index].should_run {
            ShouldRun::No => CriteriaAction::Keep,
            ShouldRun::Yes => CriteriaAction::SetNo,
            _ => CriteriaAction::Evaluate(self.criteria_input(index)),
        }
    }

    /// Records the answer of run criteria `index`; returns whether the answer asks for another
    /// pass over the systems.
    pub fn record_criteria(&mut self, index: usize, answer: ShouldRun) -> (again: bool)
        requires
            index < old(self).run_criteria@.len(),
        ensures
            final(self).run_criteria@.len() == old(self).run_criteria@.len(),
            final(self).run_criteria@[index as int].should_run == answer,
            ({
                let (a, b) = (old(self).run_criteria@[index as int], final(self).run_criteria@[index as int]);
                &&& b.system == a.system
                &&& b.label == a.label
                &&& b.labels == a.labels
                &&& b.before == a.before
                &&& b.after == a.after
                &&& b.piped == a.piped
                &&& b.input == a.input
            }),
            forall|j: int| 0 <= j < old(self).run_criteria@.len() && j != index ==> #[trigger] final(self).run_criteria@[j] == old(self).run_criteria@[j],
            final(self).same_groups(old(self)),
            final(self).uninitialized_run_criteria == old(self).uninitialized_run_criteria,
            final(self).same_settings(old(self)),
            final(self).systems_modified == old(self).systems_modified,
            again == (answer != ShouldRun::No),
    {
        self.run_criteria[index].should_run = answer;
        match answer {
            ShouldRun::No => false,
            _ => true,
        }
    }

    /// Whether the change ticks are due for a check at `change_tick`: more than
    /// `MIN_TIME_SINCE_LAST_CHECK` ticks have passed since the last check.
    pub fn change_ticks_due(&self, change_tick: u32) -> (due: bool)
        ensures
            due == (tick_delta(change_tick, self.last_tick_check) > MIN_TIME_SINCE_LAST_CHECK),
    {
        wrapping_delta(change_tick, self.last_tick_check) > MIN_TIME_SINCE_LAST_CHECK
    }

    /// Whether the change ticks are due for a check at `change_tick`: more than
    /// `MIN_TIME_SINCE_LAST_CHECK` ticks have passed since the last check. When they are, the
    /// check is recorded as done at `change_tick`.
    pub fn check_change_ticks(&mut self, change_tick: u32) -> (due: bool)
        ensures
            due == (tick_delta(change_tick, old(self).last_tick_check) > MIN_TIME_SINCE_LAST_CHECK),
            final(self).last_tick_check == if due { change_tick } else { old(self).last_tick_check },
            final(self).run_criteria == old(self).run_criteria,
            final(self).same_groups(old(self)),
            final(self).uninitialized_run_criteria == old(self).uninitialized_run_criteria,
            final(self).world_id == old(self).world_id,
            final(self).executor == old(self).executor,
            final(self).stage_run_criteria == old(self).stage_run_criteria,
            final(self).executor_modified == old(self).executor_modified,
            final(self).apply_buffers == old(self).apply_buffers,
            final(self).systems_modified == old(self).systems_modified,
    {
        if self.change_ticks_due(change_tick) {
            self.last_tick_check = change_tick;
            true
        } else {
            false
        }
    }
}


impl SystemStage {
    /// Whether the stage may run on world `world_id`: it has not run yet, or ran on that world.
    pub open spec fn accepts_world(&self, world_id: u64) -> bool {
        match self.world_id {
            Some(w) => w == world_id,
            None => true,
        }
    }

    /// Whether the stage may run on world `world_id` (see `accepts_world`).
    pub fn can_run_on(&self, world_id: u64) -> (r: bool)
        ensures
            r == self.accepts_world(world_id),
    {
        match self.world_id {
            Some(w) => w == world_id,
            None => true,
        }
    }

    /// Preparing the stage after systems were added succeeds: initialization is not refused,
    /// and rebuilding the orders of the initialized stage is possible.
    pub open spec fn preparation_possible(&self) -> bool {
        let w = self.init_walk(self.run_criteria@.len());
        &&& w.4 is None
        &&& forall|a: Self| #[trigger] Self::initialized(&a, self, w.0, w.2, w.3) ==> a.rebuild_possible()
    }

    /// Prepares the stage to run on world `world_id`: remembers the world, and when systems were
    /// added since the last run, initializes them and rebuilds the orders and dependencies. A
    /// stage runs on one world only, and its preparation must be possible (see
    /// `preparation_possible`, `duplicate_run_criteria_label` and `rebuild_refusal`).
    pub fn prepare(&mut self, world_id: u64)
        requires
            old(self).wf(),
            old(self).system_count() < 0x1fff_ffff,
            old(self).accepts_world(world_id),
            old(self).systems_modified ==> old(self).preparation_possible(),
        ensures
            final(self).wf(),
            final(self).executor == old(self).executor,
            final(self).stage_run_criteria == old(self).stage_run_criteria,
            final(self).last_tick_check == old(self).last_tick_check,
            final(self).apply_buffers == old(self).apply_buffers,
            final(self).world_id == Some(world_id),
            !final(self).executor_modified,
            !old(self).systems_modified ==> {
                &&& final(self).systems_modified == old(self).systems_modified
                &&& final(self).run_criteria == old(self).run_criteria
                &&& final(self).uninitialized_run_criteria == old(self).uninitialized_run_criteria
                &&& final(self).same_groups(old(self))
            },
            old(self).systems_modified ==> {
                let w = old(self).init_walk(old(self).run_criteria@.len());
                &&& !final(self).systems_modified
                &&& final(self).fully_initialized()
                &&& exists|a: Self, mid: Self, labels: Map<u64, usize>| {
                    &&& Self::initialized(&a, old(self), w.0, w.2, w.3)
                    &&& Self::rebuilt(final(self), &mid, &a, labels)
                }
            },
    {
        if self.systems_modified {
            let ghost before = *self;
            self.initialize_systems();
            let ghost a = *self;
            proof {
                let w = before.init_walk(before.run_criteria@.len());
                assert(Self::initialized(&a, &before, w.0, w.2, w.3));
            }
            self.rebuild_orders_and_dependencies();
            let ghost b = *self;
            self.systems_modified = false;
            self.executor_modified = false;
            self.world_id = Some(world_id);
            proof {
                Self::lemma_wf_same_groups(self, &b);
                let (mid, labels) = choose|mid: Self, labels: Map<u64, usize>| Self::rebuilt(&b, &mid, &a, labels);
                assert forall|g: Group| #[trigger] group_processed(self.group(g), mid.group(g), labels) by {
                    Self::lemma_same_groups(self, &b);
                    assert(group_processed(b.group(g), mid.group(g), labels));
                }
                assert(Self::rebuilt(self, &mid, &a, labels));
            }
        } else {
            let ghost b = *self;
            self.executor_modified = false;
            self.world_id = Some(world_id);
            proof {
                Self::lemma_wf_same_groups(self, &b);
            }
        }
    }
}


/// After a rebuild, no system of a group comes before a system it must run after (or is placed
/// where it must run after itself).
pub proof fn law_rebuilt_groups_respect_order(new: SystemStage, mid: SystemStage, old: SystemStage, labels: Map<u64, usize>, g: Group)
    requires
        SystemStage::rebuilt(&new, &mid, &old, labels),
    ensures
        forall|a: int, b: int| 0 <= a <= b < new.group(g).len() ==> !#[trigger] depends_on(new.group(g), a, b),
{
    let n = new.group(g);
    let m = mid.group(g);
    assert(group_processed(n, m, labels));
    let order = choose|order: Seq<usize>| #![trigger is_topological(m, order)] {
        &&& is_topological(m, order)
        &&& n.len() == m.len()
        &&& forall|k: int| 0 <= k < order.len() ==> #[trigger] processed(n[k], order[k] as int, m, order, labels)
    };
    assert forall|a: int, b: int| 0 <= a <= b < n.len() implies !#[trigger] depends_on(n, a, b) by {
        assert(processed(n[a], order[a] as int, m, order, labels));
        assert(processed(n[b], order[b] as int, m, order, labels));
        assert(!depends_on(m, order[a] as int, order[b] as int));
    }
}

/// After a rebuild, every dependency a system records is the position of a system placed before
/// it.
pub proof fn law_dependencies_come_first(new: SystemStage, mid: SystemStage, old: SystemStage, labels: Map<u64, usize>, g: Group)
    requires
        SystemStage::rebuilt(&new, &mid, &old, labels),
    ensures
        forall|k: int, p: usize| 0 <= k < new.group(g).len() && #[trigger] new.group(g)[k].dependencies@.contains(p) ==> (p as int) < k,
{
    let n = new.group(g);
    let m = mid.group(g);
    assert(group_processed(n, m, labels));
    let order = choose|order: Seq<usize>| #![trigger is_topological(m, order)] {
        &&& is_topological(m, order)
        &&& n.len() == m.len()
        &&& forall|k: int| 0 <= k < order.len() ==> #[trigger] processed(n[k], order[k] as int, m, order, labels)
    };
    assert forall|k: int, p: usize| 0 <= k < n.len() && #[trigger] n[k].dependencies@.contains(p) implies (p as int) < k by {
        assert(processed(n[k], order[k] as int, m, order, labels));
        assert(depends_on(m, order[k] as int, order[p as int] as int));
        if (p as int) >= k {
            assert(!depends_on(m, order[k] as int, order[p as int] as int));
        }
    }
}


impl SystemStage {
    #[verifier::spinoff_prover]
    proof fn lemma_walk_labels(&self, k: nat)
        requires
            self.wf(),
            k <= self.run_criteria@.len(),
            self.init_walk(k).4 is None,
        ensures
            ({
                let w = self.init_walk(k);
                &&& forall|l: u64| #[trigger] w.1.contains_key(l) ==> exists|j: int| 0 <= j < k && #[trigger] w.0[j] && self.run_criteria@[j].label == Some(l) && w.2[j] == w.1[l]
                &&& forall|j: int| 0 <= j < k ==> exists|q: int| 0 <= q < k && #[trigger] w.0[q] && w.2[q] == #[trigger] w.2[j] && self.run_criteria@[q].label == self.run_criteria@[j].label
            }),
        decreases k,
    {
        self.lemma_walk_facts(k);
        if k > 0 {
            let w = self.init_walk((k - 1) as nat);
            let v = self.init_walk(k);
            let i = k - 1;
            assert(w.4 is None);
            self.lemma_walk_facts((k - 1) as nat);
            self.lemma_walk_labels((k - 1) as nat);
            let label = self.run_criteria@[i].label;
            assert forall|j: int| 0 <= j < k - 1 implies v.0[j] == w.0[j] && v.2[j] == w.2[j] by {}
            if self.is_duplicate(i, w.1) {
                assert forall|l: u64| #[trigger] v.1.contains_key(l) implies exists|j: int| 0 <= j < k && #[trigger] v.0[j] && self.run_criteria@[j].label == Some(l) && v.2[j] == v.1[l] by {
                    let j = choose|j: int| 0 <= j < k - 1 && #[trigger] w.0[j] && self.run_criteria@[j].label == Some(l) && w.2[j] == w.1[l];
                    assert(v.0[j]);
                }
                assert forall|j: int| 0 <= j < k implies exists|q: int| 0 <= q < k && #[trigger] v.0[q] && v.2[q] == #[trigger] v.2[j] && self.run_criteria@[q].label == self.run_criteria@[j].label by {
                    if j < k - 1 {
                        let q = choose|q: int| 0 <= q < k - 1 && #[trigger] w.0[q] && w.2[q] == #[trigger] w.2[j] && self.run_criteria@[q].label == self.run_criteria@[j].label;
                        assert(v.0[q]);
                    } else {
                        let l = label.unwrap();
                        let q = choose|q: int| 0 <= q < k - 1 && #[trigger] w.0[q] && self.run_criteria@[q].label == Some(l) && w.2[q] == w.1[l];
                        assert(v.0[q]);
                        assert(v.2[j] == w.1[l]);
                    }
                }
            } else {
                assert forall|l: u64| #[trigger] v.1.contains_key(l) implies exists|j: int| 0 <= j < k && #[trigger] v.0[j] && self.run_criteria@[j].label == Some(l) && v.2[j] == v.1[l] by {
                    if label == Some(l) {
                        assert(v.0[i]);
                    } else {
                        assert(w.1.contains_key(l));
                        let j = choose|j: int| 0 <= j < k - 1 && #[trigger] w.0[j] && self.run_criteria@[j].label == Some(l) && w.2[j] == w.1[l];
                        assert(v.0[j]);
                    }
                }
                assert forall|j: int| 0 <= j < k implies exists|q: int| 0 <= q < k && #[trigger] v.0[q] && v.2[q] == #[trigger] v.2[j] && self.run_criteria@[q].label == self.run_criteria@[j].label by {
                    if j < k - 1 {
                        let q = choose|q: int| 0 <= q < k - 1 && #[trigger] w.0[q] && w.2[q] == #[trigger] w.2[j] && self.run_criteria@[q].label == self.run_criteria@[j].label;
                        assert(v.0[q]);
                    } else {
                        assert(v.0[j]);
                    }
                }
            }
        }
    }
}

/// After initialization, the run criteria a run criteria index leads to carries the label of
/// the run criteria it led to before: a discarded duplicate is replaced by the kept run criteria
/// with its label, and a kept run criteria is unchanged.
pub proof fn law_initialization_keeps_labels(new: SystemStage, old: SystemStage)
    requires
        old.wf(),
        old.init_walk(old.run_criteria@.len()).4 is None,
        ({
            let w = old.init_walk(old.run_criteria@.len());
            SystemStage::initialized(&new, &old, w.0, w.2, w.3)
        }),
    ensures
        ({
            let w = old.init_walk(old.run_criteria@.len());
            forall|j: int| 0 <= j < old.run_criteria@.len() ==> {
                &&& 0 <= #[trigger] w.2[j] < new.run_criteria@.len()
                &&& new.run_criteria@[w.2[j]].label == old.run_criteria@[j].label
                &&& w.0[j] ==> new.run_criteria@[w.2[j]] == old.run_criteria@[j]
            }
        }),
{
    let n = old.run_criteria@.len();
    let w = old.init_walk(n);
    old.lemma_walk_facts(n);
    old.lemma_walk_labels(n);
    assert forall|j: int| 0 <= j < n implies {
        &&& 0 <= #[trigger] w.2[j] < new.run_criteria@.len()
        &&& new.run_criteria@[w.2[j]].label == old.run_criteria@[j].label
        &&& w.0[j] ==> new.run_criteria@[w.2[j]] == old.run_criteria@[j]
    } by {
        let q = choose|q: int| 0 <= q < n && #[trigger] w.0[q] && w.2[q] == #[trigger] w.2[j] && old.run_criteria@[q].label == old.run_criteria@[j].label;
        assert(new.run_criteria@[w.2[q]] == old.run_criteria@[q]);
    }
}


proof fn lemma_criteria_labels_source(criteria: Seq<RunCriteriaContainer>, inverse: Seq<int>, k: nat, l: u64)
    requires
        k <= criteria.len(),
        criteria_labels(criteria, inverse, k).contains_key(l),
    ensures
        exists|j: int| 0 <= j < k && #[trigger] criteria[j].label == Some(l) && criteria_labels(criteria, inverse, k)[l] == inverse[j] as usize,
    decreases k,
{
    if k > 0 {
        let prev = criteria_labels(criteria, inverse, (k - 1) as nat);
        if criteria[k - 1].label == Some(l) {
            assert(criteria[k - 1].label == Some(l));
        } else {
            lemma_criteria_labels_source(criteria, inverse, (k - 1) as nat, l);
        }
    }
}

/// After a rebuild, a piped run criteria takes its input from a run criteria placed before it.
pub proof fn law_pipe_inputs_come_first(new: SystemStage, mid: SystemStage, old: SystemStage, labels: Map<u64, usize>)
    requires
        old.wf(),
        SystemStage::rebuilt(&new, &mid, &old, labels),
    ensures
        forall|k: int| 0 <= k < new.run_criteria@.len() && (#[trigger] new.run_criteria@[k]).piped ==> new.run_criteria@[k].input < k,
{
    let (order, inverse) = choose|order: Seq<usize>, inverse: Seq<int>| SystemStage::criteria_reordered(&mid, &old, order, inverse, labels);
    let rc = old.run_criteria@;
    let n = rc.len();
    assert forall|k: int| 0 <= k < new.run_criteria@.len() && (#[trigger] new.run_criteria@[k]).piped implies new.run_criteria@[k].input < k by {
        let c = rc[order[k] as int];
        assert(criteria_resolved(mid.run_criteria@[k], c, labels));
        assert(!pipe_missing(c, labels));
        let l = c.after@[0];
        lemma_criteria_labels_source(rc, inverse, n, l);
        let j = choose|j: int| 0 <= j < n && #[trigger] rc[j].label == Some(l) && criteria_labels(rc, inverse, n)[l] == inverse[j] as usize;
        assert(labels_consistent(rc[j]));
        assert(rc[j].spec_labels().contains(l)) by {
            assert(rc[j].labels@[0] == l);
        }
        assert(c.spec_after().contains(l)) by {
            assert(c.after@[0] == l);
        }
        assert(depends_on(rc, order[k] as int, j));
        let p = inverse[j];
        assert(order[p] == j);
        if p >= k {
            assert(!depends_on(rc, order[k] as int, order[p] as int));
        }
    }
}


/// Whether some run criteria of `rc` carries label `l`.
pub open spec fn carries_label(rc: Seq<RunCriteriaContainer>, l: u64) -> bool {
    exists|j: int| 0 <= j < rc.len() && (#[trigger] rc[j]).label == Some(l)
}

/// A piped run criteria whose input label no run criteria of `rc` carries.
pub open spec fn pipe_unresolved(c: RunCriteriaContainer, rc: Seq<RunCriteriaContainer>) -> bool {
    c.piped && (c.after@.len() == 0 || !carries_label(rc, c.after@[0]))
}

/// A system naming a run criteria label that no run criteria of `rc` carries.
pub open spec fn label_unresolved(c: SystemContainer, rc: Seq<RunCriteriaContainer>) -> bool {
    c.run_criteria_label matches Some(l) && !carries_label(rc, l)
}

/// The run criteria `rc` can be ordered, and every piped one finds its input.
pub open spec fn criteria_sound(rc: Seq<RunCriteriaContainer>) -> bool {
    &&& exists|order: Seq<usize>| is_topological(rc, order)
    &&& forall|j: int| 0 <= j < rc.len() ==> !pipe_unresolved(#[trigger] rc[j], rc)
}

/// The systems `g` can be ordered, and every run criteria label they name is carried by one of
/// `rc`.
pub open spec fn group_sound(g: Seq<SystemContainer>, rc: Seq<RunCriteriaContainer>) -> bool {
    &&& exists|order: Seq<usize>| is_topological(g, order)
    &&& forall|i: int| 0 <= i < g.len() ==> !label_unresolved(#[trigger] g[i], rc)
}

/// Processing group `grp`, holding `g`, is refused with `e`: a dependency cycle when it has no
/// topological order, otherwise the label of the first system naming a label no run criteria
/// carries.
pub open spec fn group_refused(g: Seq<SystemContainer>, rc: Seq<RunCriteriaContainer>, grp: Group, e: StageError) -> bool {
    match e {
        StageError::DependencyCycle(h) => {
            &&& h == Some(grp)
            &&& forall|order: Seq<usize>| !is_topological(g, order)
        },
        StageError::MissingRunCriteria(l) => {
            &&& exists|order: Seq<usize>| is_topological(g, order)
            &&& exists|i: int| {
                &&& 0 <= i < g.len()
                &&& #[trigger] g[i].run_criteria_label == Some(l)
                &&& !carries_label(rc, l)
                &&& forall|j: int| 0 <= j < i ==> !label_unresolved(#[trigger] g[j], rc)
            }
        },
        _ => false,
    }
}

impl SystemStage {
    /// Rebuilding the orders succeeds: the run criteria can be ordered and their pipes resolved,
    /// and so can every group of systems, whose run criteria labels are all carried.
    pub open spec fn rebuild_possible(&self) -> bool {
        &&& criteria_sound(self.run_criteria@)
        &&& forall|g: Group| #[trigger] group_sound(self.group(g), self.run_criteria@)
    }

    /// Rebuilding the orders is refused with `e`: a cycle among the run criteria, else the first
    /// piped run criteria without input, else the first group that is refused, the groups being
    /// taken in the order parallel, at start, before commands, at end.
    pub open spec fn rebuild_refused(&self, e: StageError) -> bool {
        let rc = self.run_criteria@;
        ||| e == StageError::DependencyCycle(None) && forall|order: Seq<usize>| !is_topological(rc, order)
        ||| {
            &&& exists|order: Seq<usize>| is_topological(rc, order)
            &&& e matches StageError::MissingPipeInput(i) && i < rc.len() && pipe_unresolved(rc[i as int], rc)
                && forall|j: int| 0 <= j < i ==> !pipe_unresolved(#[trigger] rc[j], rc)
        }
        ||| criteria_sound(rc) && group_refused(self.parallel@, rc, Group::Parallel, e)
        ||| criteria_sound(rc) && group_sound(self.parallel@, rc)
            && group_refused(self.exclusive_at_start@, rc, Group::AtStart, e)
        ||| criteria_sound(rc) && group_sound(self.parallel@, rc) && group_sound(self.exclusive_at_start@, rc)
            && group_refused(self.exclusive_before_commands@, rc, Group::BeforeCommands, e)
        ||| criteria_sound(rc) && group_sound(self.parallel@, rc) && group_sound(self.exclusive_at_start@, rc)
            && group_sound(self.exclusive_before_commands@, rc)
            && group_refused(self.exclusive_at_end@, rc, Group::AtEnd, e)
    }
}

/// The labels of the first `k` run criteria are the keys of the label map, whatever the order.
proof fn lemma_criteria_labels_keys(rc: Seq<RunCriteriaContainer>, inverse: Seq<int>, k: nat, l: u64)
    requires
        k <= rc.len(),
    ensures
        criteria_labels(rc, inverse, k).contains_key(l) <==> exists|j: int| 0 <= j < k && (#[trigger] rc[j]).label == Some(l),
    decreases k,
{
    if k > 0 {
        lemma_criteria_labels_keys(rc, inverse, (k - 1) as nat, l);
        if criteria_labels(rc, inverse, k).contains_key(l) && rc[k - 1].label != Some(l) {
            let j = choose|j: int| 0 <= j < k - 1 && (#[trigger] rc[j]).label == Some(l);
            assert(0 <= j < k && rc[j].label == Some(l));
        }
        if exists|j: int| 0 <= j < k && (#[trigger] rc[j]).label == Some(l) {
            let j = choose|j: int| 0 <= j < k && (#[trigger] rc[j]).label == Some(l);
            if j < k - 1 {
                assert(criteria_labels(rc, inverse, (k - 1) as nat).contains_key(l));
            }
        }
    }
}

/// The final label map knows exactly the labels some run criteria carries.
proof fn lemma_label_map_keys(rc: Seq<RunCriteriaContainer>, inverse: Seq<int>)
    ensures
        forall|l: u64| #[trigger] criteria_labels(rc, inverse, rc.len()).contains_key(l) <==> carries_label(rc, l),
{
    assert forall|l: u64| #[trigger] criteria_labels(rc, inverse, rc.len()).contains_key(l) <==> carries_label(rc, l) by {
        lemma_criteria_labels_keys(rc, inverse, rc.len(), l);
    }
}

/// Systems that keep their ordering constraints keep the orders that respect them.
proof fn lemma_same_deps_topological(old: Seq<SystemContainer>, new: Seq<SystemContainer>, order: Seq<usize>)
    requires
        new.len() == old.len(),
        forall|i: int| 0 <= i < old.len() ==> (#[trigger] new[i]).deps == old[i].deps,
    ensures
        is_topological(old, order) <==> is_topological(new, order),
{
    assert forall|i: int, j: int| 0 <= i < old.len() && 0 <= j < old.len() implies depends_on(old, i, j) == depends_on(new, i, j) by {
        assert(new[i].deps == old[i].deps);
        assert(new[j].deps == old[j].deps);
    }
    if is_topological(old, order) {
        assert forall|a: int, b: int| 0 <= a <= b < order.len() implies !depends_on(new, #[trigger] order[a] as int, #[trigger] order[b] as int) by {
            assert(!depends_on(old, order[a] as int, order[b] as int));
        }
    }
    if is_topological(new, order) {
        assert forall|a: int, b: int| 0 <= a <= b < order.len() implies !depends_on(old, #[trigger] order[a] as int, #[trigger] order[b] as int) by {
            assert(!depends_on(new, order[a] as int, order[b] as int));
        }
    }
}

impl SystemStage {
    /// A stage whose rebuild is possible is refused by none of the ways a rebuild can fail.
    proof fn lemma_possible_never_fails(&self, e: StageError)
        requires
            self.rebuild_possible(),
        ensures
            !Self::criteria_fails(self, e),
            forall|mid: Self, labels: Map<u64, usize>| !Self::rebuild_fails(&mid, self, labels, e),
    {
        let rc = self.run_criteria@;
        lemma_sound_criteria_never_fail(self, e);
        assert forall|mid: Self, labels: Map<u64, usize>| !Self::rebuild_fails(&mid, self, labels, e) by {
            if Self::rebuild_fails(&mid, self, labels, e) {
                let (order, inverse) = choose|order: Seq<usize>, inverse: Seq<int>| Self::criteria_reordered(&mid, self, order, inverse, labels);
                lemma_label_map_keys(rc, inverse);
                assert forall|g: Group| group_ok(#[trigger] mid.group(g), labels) by {
                    assert(group_sound(self.group(g), rc));
                    assert(mid.group(g).len() == self.group(g).len());
                    let o = choose|o: Seq<usize>| is_topological(self.group(g), o);
                    assert forall|i: int| 0 <= i < self.group(g).len() implies (#[trigger] mid.group(g)[i]).deps == self.group(g)[i].deps by {
                        assert(reindexed(self.group(g)[i], mid.group(g)[i], mapped_index(self.group(g)[i].run_criteria_index, inverse)));
                    }
                    lemma_same_deps_topological(self.group(g), mid.group(g), o);
                    assert forall|i: int| 0 <= i < mid.group(g).len() implies !label_missing(#[trigger] mid.group(g)[i], labels) by {
                        assert(reindexed(self.group(g)[i], mid.group(g)[i], mapped_index(self.group(g)[i].run_criteria_index, inverse)));
                        assert(!label_unresolved(self.group(g)[i], rc));
                    }
                }
                assert(group_ok(mid.group(Group::Parallel), labels));
                assert(group_ok(mid.group(Group::AtStart), labels));
                assert(group_ok(mid.group(Group::BeforeCommands), labels));
                assert(group_ok(mid.group(Group::AtEnd), labels));
            }
        }
    }
}


/// Whether some run criteria of `criteria` carries label `l`.
fn carries(criteria: &Vec<RunCriteriaContainer>, l: u64) -> (r: bool)
    ensures
        r == carries_label(criteria@, l),
{
    let mut j: usize = 0;
    while j < criteria.len()
        invariant
            j <= criteria@.len(),
            forall|q: int| 0 <= q < j ==> (#[trigger] criteria@[q]).label != Some(l),
        decreases criteria@.len() - j,
    {
        match criteria[j].label {
            Some(m) => {
                if m == l {
                    return true;
                }
            },
            None => {},
        }
        j += 1;
    }
    false
}

/// The first piped run criteria of `criteria` whose input label no run criteria carries.
fn first_unresolved_pipe(criteria: &Vec<RunCriteriaContainer>) -> (r: Option<usize>)
    ensures
        match r {
            None => forall|j: int| 0 <= j < criteria@.len() ==> !pipe_unresolved(#[trigger] criteria@[j], criteria@),
            Some(i) => i < criteria@.len() && pipe_unresolved(criteria@[i as int], criteria@)
                && forall|j: int| 0 <= j < i ==> !pipe_unresolved(#[trigger] criteria@[j], criteria@),
        },
{
    let mut i: usize = 0;
    while i < criteria.len()
        invariant
            i <= criteria@.len(),
            forall|j: int| 0 <= j < i ==> !pipe_unresolved(#[trigger] criteria@[j], criteria@),
        decreases criteria@.len() - i,
    {
        if criteria[i].piped {
            if criteria[i].after.len() == 0 {
                return Some(i);
            }
            if !carries(criteria, criteria[i].after[0]) {
                return Some(i);
            }
        }
        i += 1;
    }
    None
}

/// The label of the first system of `systems` naming a run criteria label no run criteria of
/// `criteria` carries.
fn first_unresolved_label(systems: &Vec<SystemContainer>, criteria: &Vec<RunCriteriaContainer>) -> (r: Option<u64>)
    ensures
        match r {
            None => forall|i: int| 0 <= i < systems@.len() ==> !label_unresolved(#[trigger] systems@[i], criteria@),
            Some(l) => exists|i: int| {
                &&& 0 <= i < systems@.len()
                &&& #[trigger] systems@[i].run_criteria_label == Some(l)
                &&& !carries_label(criteria@, l)
                &&& forall|j: int| 0 <= j < i ==> !label_unresolved(#[trigger] systems@[j], criteria@)
            },
        },
{
    let mut i: usize = 0;
    while i < systems.len()
        invariant
            i <= systems@.len(),
            forall|j: int| 0 <= j < i ==> !label_unresolved(#[trigger] systems@[j], criteria@),
        decreases systems@.len() - i,
    {
        match systems[i].run_criteria_label {
            Some(l) => {
                if !carries(criteria, l) {
                    assert(systems@[i as int].run_criteria_label == Some(l));
                    return Some(l);
                }
            },
            None => {},
        }
        i += 1;
    }
    None
}

/// Why processing group `grp`, holding `systems`, would be refused, if it would.
fn group_refusal(systems: &Vec<SystemContainer>, criteria: &Vec<RunCriteriaContainer>, grp: Group) -> (r: Option<StageError>)
    ensures
        match r {
            None => group_sound(systems@, criteria@),
            Some(e) => group_refused(systems@, criteria@, grp, e),
        },
{
    match topological_order(systems) {
        Ok(order) => {
            assert(is_topological(systems@, order@));
        },
        Err(_) => {
            return Some(StageError::DependencyCycle(Some(grp)));
        },
    }
    match first_unresolved_label(systems, criteria) {
        Some(l) => Some(StageError::MissingRunCriteria(l)),
        None => None,
    }
}

impl SystemStage {
    /// Why rebuilding the orders would be refused, if it would: `None` exactly when it is
    /// possible, else the refusal (see `rebuild_refused`).
    pub fn rebuild_refusal(&self) -> (r: Option<StageError>)
        ensures
            match r {
                None => self.rebuild_possible(),
                Some(e) => self.rebuild_refused(e) && !self.rebuild_possible(),
            },
    {
        let rc = &self.run_criteria;
        match topological_order(rc) {
            Ok(order) => {
                assert(is_topological(rc@, order@));
            },
            Err(_) => {
                return Some(StageError::DependencyCycle(None));
            },
        }
        if let Some(i) = first_unresolved_pipe(rc) {
            assert(!criteria_sound(rc@));
            return Some(StageError::MissingPipeInput(i));
        }
        assert(criteria_sound(rc@));
        if let Some(e) = group_refusal(&self.parallel, rc, Group::Parallel) {
            assert(!group_sound(self.group(Group::Parallel), rc@));
            return Some(e);
        }
        if let Some(e) = group_refusal(&self.exclusive_at_start, rc, Group::AtStart) {
            assert(!group_sound(self.group(Group::AtStart), rc@));
            return Some(e);
        }
        if let Some(e) = group_refusal(&self.exclusive_before_commands, rc, Group::BeforeCommands) {
            assert(!group_sound(self.group(Group::BeforeCommands), rc@));
            return Some(e);
        }
        if let Some(e) = group_refusal(&self.exclusive_at_end, rc, Group::AtEnd) {
            assert(!group_sound(self.group(Group::AtEnd), rc@));
            return Some(e);
        }
        assert forall|g: Group| #[trigger] group_sound(self.group(g), rc@) by {
            match g {
                Group::AtStart => {},
                Group::BeforeCommands => {},
                Group::AtEnd => {},
                Group::Parallel => {},
            }
        }
        None
    }

    /// Puts the run criteria and each group of systems in a topological order of their ordering
    /// constraints and resolves the run criteria of every system. The stage holds fewer than
    /// `u32::MAX / 8` systems, so that change detection has no false positive, and the rebuild is
    /// possible (no ordering cycle, no missing run criteria label or pipe input; see
    /// `rebuild_refusal`).
    pub fn rebuild_orders_and_dependencies(&mut self)
        requires
            old(self).wf(),
            old(self).fully_initialized(),
            old(self).system_count() < 0x1fff_ffff,
            old(self).rebuild_possible(),
        ensures
            final(self).wf(),
            final(self).fully_initialized(),
            final(self).same_settings(old(self)),
            final(self).systems_modified == old(self).systems_modified,
            exists|mid: Self, labels: Map<u64, usize>| Self::rebuilt(final(self), &mid, old(self), labels),
    {
        match self.rebuild_or_refuse() {
            Ok(_) => {},
            Err(e) => {
                proof {
                    old(self).lemma_possible_never_fails(e);
                }
            },
        }
    }
}


impl SystemStage {
    /// Walking settled run criteria keeps each of them, at its own position.
    proof fn lemma_walk_keeps_settled(&self, k: nat)
        requires
            self.wf(),
            k <= self.settled_criteria(),
        ensures
            ({
                let w = self.init_walk(k);
                &&& w.4 is None
                &&& w.3 == k
                &&& w.0.len() == k
                &&& w.2.len() == k
                &&& forall|j: int| 0 <= j < k ==> #[trigger] w.0[j] && w.2[j] == j
            }),
        decreases k,
    {
        if k > 0 {
            self.lemma_walk_keeps_settled((k - 1) as nat);
            assert(self.pending_strategy(k - 1) is None);
        }
    }

    /// Once nothing waits for initialization, preparing the stage is possible exactly when
    /// rebuilding its orders is: initializing it again changes nothing.
    pub proof fn lemma_preparation_after_initialization(&self)
        requires
            self.wf(),
            self.fully_initialized(),
        ensures
            self.preparation_possible() <==> self.rebuild_possible(),
    {
        let n = self.run_criteria@.len();
        self.lemma_walk_keeps_settled(n);
        let w = self.init_walk(n);
        assert forall|a: Self| #[trigger] Self::initialized(&a, self, w.0, w.2, w.3) implies a.run_criteria@ == self.run_criteria@
            && forall|g: Group| #[trigger] a.group(g) == self.group(g) by {
            assert forall|j: int| 0 <= j < n implies a.run_criteria@[j] == self.run_criteria@[j] by {
                assert(w.0[j]);
                assert(w.2[j] == j);
                assert(a.run_criteria@[w.2[j]] == self.run_criteria@[j]);
            }
            assert(a.run_criteria@ =~= self.run_criteria@);
            assert forall|g: Group| #[trigger] a.group(g) == self.group(g) by {
                assert(self.uninitialized(g).len() == 0) by {
                    match g {
                        Group::AtStart => {},
                        Group::BeforeCommands => {},
                        Group::AtEnd => {},
                        Group::Parallel => {},
                    }
                }
                assert(Self::initialized(&a, self, w.0, w.2, w.3));
                assert(a.uninitialized(g).len() == 0);
                assert(group_initialized(a.group(g), self.group(g), self.group(g).len() - self.uninitialized(g).len(), w.2));
                assert(a.group(g) =~= self.group(g));
            }
        }
        assert forall|a: Self| #[trigger] Self::initialized(&a, self, w.0, w.2, w.3) implies (a.rebuild_possible() <==> self.rebuild_possible()) by {
            assert(a.run_criteria@ == self.run_criteria@);
            if self.rebuild_possible() {
                assert forall|g: Group| #[trigger] group_sound(a.group(g), a.run_criteria@) by {
                    assert(a.group(g) == self.group(g));
                    assert(group_sound(self.group(g), self.run_criteria@));
                }
            }
            if a.rebuild_possible() {
                assert forall|g: Group| #[trigger] group_sound(self.group(g), self.run_criteria@) by {
                    assert(a.group(g) == self.group(g));
                    assert(group_sound(a.group(g), a.run_criteria@));
                }
            }
        }
        assert forall|g: Group| #[trigger] self.uninitialized(g).len() == 0 && group_initialized(
            self.group(g),
            self.group(g),
            self.group(g).len() - self.uninitialized(g).len(),
            w.2,
        ) by {
            match g {
                Group::AtStart => {},
                Group::BeforeCommands => {},
                Group::AtEnd => {},
                Group::Parallel => {},
            }
        }
        assert forall|j: int| 0 <= j < n && #[trigger] w.0[j] implies self.run_criteria@[w.2[j]] == self.run_criteria@[j] by {
            assert(w.2[j] == j);
        }
        assert(Self::initialized(self, self, w.0, w.2, w.3));
    }
}


/// Sound run criteria fail in none of the ways processing them can fail.
proof fn lemma_sound_criteria_never_fail(s: &SystemStage, e: StageError)
    requires
        criteria_sound(s.run_criteria@),
    ensures
        !SystemStage::criteria_fails(s, e),
{
    let rc = s.run_criteria@;
    if SystemStage::criteria_fails(s, e) {
        if let StageError::MissingPipeInput(i) = e {
            let (order, inverse) = choose|order: Seq<usize>, inverse: Seq<int>| #![trigger is_topological(rc, order), inverse_of_order(order, inverse)] {
                let labels = criteria_labels(rc, inverse, rc.len());
                &&& is_topological(rc, order)
                &&& inverse_of_order(order, inverse)
                &&& i < rc.len()
                &&& pipe_missing(rc[i as int], labels)
                &&& forall|j: int| 0 <= j < i ==> !pipe_missing(#[trigger] rc[j], labels)
            };
            lemma_label_map_keys(rc, inverse);
            assert(!pipe_unresolved(rc[i as int], rc));
        }
    }
}

/// Sorts the systems of a group in a topological order of their ordering constraints, resolves
/// their run criteria labels to indices through `labels`, and sets their dependencies. The group
/// can be processed: it has a topological order and every run criteria label it names is known.
pub fn process_systems(systems: &mut Vec<SystemContainer>, labels: &KeyMap<usize>, group: Group)
    requires
        labels.wf(),
        group_ok(old(systems)@, labels@),
    ensures
        group_processed(final(systems)@, old(systems)@, labels@),
{
    match process_or_refuse(systems, labels, group) {
        Ok(_) => {},
        Err(e) => {
            proof {
                assert(group_fails(old(systems)@, labels@, group, e));
                if let StageError::MissingRunCriteria(l) = e {
                    let i = choose|i: int| {
                        &&& 0 <= i < old(systems)@.len()
                        &&& #[trigger] old(systems)@[i].run_criteria_label == Some(l)
                        &&& !labels@.contains_key(l)
                        &&& forall|j: int| 0 <= j < i ==> !label_missing(#[trigger] old(systems)@[j], labels@)
                    };
                    assert(!label_missing(old(systems)@[i], labels@));
                }
            }
        },
    }
}

impl SystemStage {
    /// Sorts the run criteria in a topological order of their ordering constraints, resolves the
    /// input of piped run criteria, and makes every system follow its run criteria to its new
    /// position. Returns the position of each run criteria label. The run criteria can be
    /// ordered and every piped one finds its input.
    pub fn process_run_criteria(&mut self) -> (labels: KeyMap<usize>)
        requires
            old(self).wf(),
            old(self).fully_initialized(),
            criteria_sound(old(self).run_criteria@),
        ensures
            final(self).wf(),
            final(self).fully_initialized(),
            labels.wf(),
            exists|order: Seq<usize>, inverse: Seq<int>| Self::criteria_reordered(final(self), old(self), order, inverse, labels@),
    {
        match self.criteria_or_refuse() {
            Ok(labels) => labels,
            Err(e) => {
                // not reached: sound run criteria are never refused
                proof {
                    lemma_sound_criteria_never_fail(old(self), e);
                }
                KeyMap::new()
            },
        }
    }
}


/// Two run criteria containers hold the same system, labels, ordering constraints, pipe and
/// answer.
pub open spec fn same_criteria(a: RunCriteriaContainer, b: RunCriteriaContainer) -> bool {
    &&& a.system == b.system
    &&& a.label == b.label
    &&& a.labels@ == b.labels@
    &&& a.before@ == b.before@
    &&& a.after@ == b.after@
    &&& a.piped == b.piped
    &&& a.input == b.input
    &&& a.should_run == b.should_run
}

/// Two system containers hold the same system, ordering constraints, run criteria,
/// dependencies and answer.
pub open spec fn same_container(a: SystemContainer, b: SystemContainer) -> bool {
    &&& a.system == b.system
    &&& a.deps.labels@ == b.deps.labels@
    &&& a.deps.before@ == b.deps.before@
    &&& a.deps.after@ == b.deps.after@
    &&& a.run_criteria_index == b.run_criteria_index
    &&& a.run_criteria_label == b.run_criteria_label
    &&& a.dependencies@ == b.dependencies@
    &&& a.should_run == b.should_run
}

impl SystemStage {
    /// Two stages hold the same run criteria and systems, in the same order, with the same ones
    /// waiting for initialization.
    pub open spec fn same_contents(&self, other: &Self) -> bool {
        &&& self.run_criteria@.len() == other.run_criteria@.len()
        &&& forall|k: int| 0 <= k < self.run_criteria@.len() ==> same_criteria(#[trigger] self.run_criteria@[k], other.run_criteria@[k])
        &&& self.uninitialized_run_criteria@ == other.uninitialized_run_criteria@
        &&& forall|g: Group| #[trigger] self.group(g).len() == other.group(g).len() && self.uninitialized(g) == other.uninitialized(g)
            && forall|i: int| 0 <= i < self.group(g).len() ==> same_container(#[trigger] self.group(g)[i], other.group(g)[i])
    }

    /// Two stages that each add the same run criteria to stages with the same contents end with
    /// the same run criteria.
    proof fn lemma_criteria_added_same(a1: &Self, a0: &Self, b1: &Self, b0: &Self, rc: Option<RunCriteriaDescriptorOrLabel>)
        requires
            a0.same_contents(b0),
            Self::criteria_added(a1, a0, rc),
            Self::criteria_added(b1, b0, rc),
        ensures
            a1.run_criteria@.len() == b1.run_criteria@.len(),
            forall|k: int| 0 <= k < a1.run_criteria@.len() ==> same_criteria(#[trigger] a1.run_criteria@[k], b1.run_criteria@[k]),
            a1.uninitialized_run_criteria@ == b1.uninitialized_run_criteria@,
    {
        match rc {
            Some(RunCriteriaDescriptorOrLabel::Descriptor(d)) => {
                assert forall|k: int| 0 <= k < a1.run_criteria@.len() implies same_criteria(#[trigger] a1.run_criteria@[k], b1.run_criteria@[k]) by {
                    if k < a0.run_criteria@.len() {
                        assert(a1.run_criteria@[k] == a1.run_criteria@.drop_last()[k]);
                        assert(b1.run_criteria@[k] == b1.run_criteria@.drop_last()[k]);
                        assert(same_criteria(a0.run_criteria@[k], b0.run_criteria@[k]));
                    }
                }
            },
            _ => {},
        }
    }

    /// Adding the same system to stages with the same contents gives stages with the same
    /// contents.
    proof fn lemma_added_with_same(
        a1: &Self,
        a0: &Self,
        b1: &Self,
        b0: &Self,
        g: Group,
        system: SystemId,
        deps: LabelSet,
        rc: Option<RunCriteriaDescriptorOrLabel>,
        default_run_criteria: Option<usize>,
    )
        requires
            a0.same_contents(b0),
            Self::added_with(a1, a0, g, system, deps, rc, default_run_criteria),
            Self::added_with(b1, b0, g, system, deps, rc, default_run_criteria),
        ensures
            a1.same_contents(b1),
    {
        Self::lemma_criteria_added_same(a1, a0, b1, b0, rc);
        assert forall|h: Group| #[trigger] a1.group(h).len() == b1.group(h).len() && a1.uninitialized(h) == b1.uninitialized(h)
            && forall|i: int| 0 <= i < a1.group(h).len() ==> same_container(#[trigger] a1.group(h)[i], b1.group(h)[i]) by {
            assert(a0.group(h).len() == b0.group(h).len());
            if h == g {
                assert forall|i: int| 0 <= i < a1.group(h).len() implies same_container(#[trigger] a1.group(h)[i], b1.group(h)[i]) by {
                    if i < a0.group(h).len() {
                        assert(a1.group(h)[i] == a1.group(h).drop_last()[i]);
                        assert(b1.group(h)[i] == b1.group(h).drop_last()[i]);
                        assert(same_container(a0.group(h)[i], b0.group(h)[i]));
                    }
                }
            } else {
                assert(a1.group(h) == a0.group(h) && b1.group(h) == b0.group(h));
                assert forall|i: int| 0 <= i < a1.group(h).len() implies same_container(#[trigger] a1.group(h)[i], b1.group(h)[i]) by {
                    assert(same_container(a0.group(h)[i], b0.group(h)[i]));
                }
            }
        }
    }
}

/// Building a stage with `with_system` gives what adding the system with `add_system` gives: the
/// same run criteria and systems, and the same settings.
pub proof fn law_with_system_is_add_system(s: SystemStage, system: SystemDescriptor, with: SystemStage, added: SystemStage)
    requires
        s.wf(),
        with.wf() && with.systems_modified && with.same_settings(&s) && SystemStage::added_system(&with, &s, system, None),
        added.wf() && added.systems_modified && added.same_settings(&s) && SystemStage::added_system(&added, &s, system, None),
    ensures
        with.same_contents(&added),
        with.same_settings(&added),
        with.systems_modified == added.systems_modified,
{
    assert(s.same_contents(&s));
    SystemStage::lemma_added_with_same(
        &with,
        &s,
        &added,
        &s,
        target_group(system),
        descriptor_system(system),
        descriptor_deps(system),
        descriptor_criteria(system),
        None,
    );
}

/// Building a stage with `with_system_set` gives what adding the set with `add_system_set`
/// gives: the same run criteria and systems, and the same settings.
pub proof fn law_with_system_set_is_add_system_set(
    s: SystemStage,
    system_set: SystemSet,
    with: SystemStage,
    added: SystemStage,
    with_trace: Seq<SystemStage>,
    added_trace: Seq<SystemStage>,
)
    requires
        s.wf(),
        with.systems_modified && with.same_settings(&s),
        added.systems_modified && added.same_settings(&s),
        SystemStage::criteria_added(&with_trace[0], &s, SystemStage::set_criteria_descriptor(system_set.run_criteria)),
        with_trace[0].same_groups(&s),
        SystemStage::adds_in_order(
            with_trace,
            system_set.systems@,
            system_set.run_criteria,
            SystemStage::set_default(system_set.run_criteria, s.run_criteria@.len()),
        ),
        with_trace.last() == with,
        SystemStage::criteria_added(&added_trace[0], &s, SystemStage::set_criteria_descriptor(system_set.run_criteria)),
        added_trace[0].same_groups(&s),
        SystemStage::adds_in_order(
            added_trace,
            system_set.systems@,
            system_set.run_criteria,
            SystemStage::set_default(system_set.run_criteria, s.run_criteria@.len()),
        ),
        added_trace.last() == added,
    ensures
        with.same_contents(&added),
        with.same_settings(&added),
        with.systems_modified == added.systems_modified,
{
    let systems = system_set.systems@;
    let set_rc = system_set.run_criteria;
    let dflt = SystemStage::set_default(set_rc, s.run_criteria@.len());
    assert(s.same_contents(&s));
    let (a0, b0) = (with_trace[0], added_trace[0]);
    SystemStage::lemma_criteria_added_same(&a0, &s, &b0, &s, SystemStage::set_criteria_descriptor(set_rc));
    assert forall|h: Group| #[trigger] a0.group(h).len() == b0.group(h).len() && a0.uninitialized(h) == b0.uninitialized(h)
        && forall|i: int| 0 <= i < a0.group(h).len() ==> same_container(#[trigger] a0.group(h)[i], b0.group(h)[i]) by {
        assert(a0.group(h) == s.group(h) && b0.group(h) == s.group(h));
        assert(a0.uninitialized(h) == s.uninitialized(h) && b0.uninitialized(h) == s.uninitialized(h));
    }
    assert(a0.same_contents(&b0));
    SystemStage::lemma_traces_same(with_trace, added_trace, systems, set_rc, dflt, systems.len());
}

impl SystemStage {
    /// Two traces that add the same systems in order, from stages with the same contents, go
    /// through stages with the same contents.
    proof fn lemma_traces_same(
        ta: Seq<Self>,
        tb: Seq<Self>,
        systems: Seq<SystemDescriptor>,
        set_rc: Option<RunCriteriaDescriptorOrLabel>,
        default_run_criteria: Option<usize>,
        k: nat,
    )
        requires
            k <= systems.len(),
            ta[0].same_contents(&tb[0]),
            Self::adds_in_order(ta, systems, set_rc, default_run_criteria),
            Self::adds_in_order(tb, systems, set_rc, default_run_criteria),
        ensures
            ta[k as int].same_contents(&tb[k as int]),
        decreases k,
    {
        if k > 0 {
            let j = k - 1;
            Self::lemma_traces_same(ta, tb, systems, set_rc, default_run_criteria, j as nat);
            Self::lemma_added_with_same(
                &ta[j + 1],
                &ta[j],
                &tb[j + 1],
                &tb[j],
                target_group(systems[j]),
                descriptor_system(systems[j]),
                descriptor_deps(systems[j]),
                Self::criteria_in_set(set_rc, systems[j]),
                default_run_criteria,
            );
        }
    }
}

} // verus!





