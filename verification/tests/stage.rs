use bevy_ecs_core::stage::{
    DuplicateLabelStrategy, ExclusiveSystemDescriptor, ExecutorKind, Group, InsertionPoint, LabelSet,
    ParallelSystemDescriptor, RunCriteriaDescriptor, RunCriteriaDescriptorOrLabel, ShouldRun, StageError, SystemDescriptor,
    SystemId, SystemSet, SystemStage, MIN_TIME_SINCE_LAST_CHECK,
};
use bevy_ecs_core::stage_run::{PassStep, RunAction, RunEvent, StageRun};
use bevy_ecs_core::ticks::{ComponentTicks, MAX_CHANGE_AGE};
use std::collections::HashMap;

/// A label's number: labels are written as text in the scenarios.
fn l(s: &str) -> u64 {
    s.bytes().fold(1469598103934665603u64, |h, b| (h ^ b as u64).wrapping_mul(1099511628211))
}

/// Criteria system ids: every-other-time criteria from 1000, piped every-other-time from 2000.
const EOT: u64 = 1000;
const PIPED: u64 = 2000;

struct Sys {
    system: u64,
    labels: Vec<u64>,
    before: Vec<u64>,
    after: Vec<u64>,
    run_criteria: Option<RunCriteriaDescriptorOrLabel>,
    exclusive: Option<InsertionPoint>,
}

fn make_exclusive(tag: u64) -> Sys {
    Sys { system: tag, labels: vec![], before: vec![], after: vec![], run_criteria: None, exclusive: Some(InsertionPoint::AtStart) }
}

fn make_parallel(tag: u64) -> Sys {
    Sys { system: tag, labels: vec![], before: vec![], after: vec![], run_criteria: None, exclusive: None }
}

impl Sys {
    fn label(mut self, s: &str) -> Self {
        self.labels.push(l(s));
        self
    }
    fn before(mut self, s: &str) -> Self {
        self.before.push(l(s));
        self
    }
    fn after(mut self, s: &str) -> Self {
        self.after.push(l(s));
        self
    }
    /// Turns the system into an exclusive one, run at the start.
    fn exclusive_system(mut self) -> Self {
        self.exclusive = Some(InsertionPoint::AtStart);
        self
    }
    fn at_start(mut self) -> Self {
        self.exclusive = Some(InsertionPoint::AtStart);
        self
    }
    fn at_end(mut self) -> Self {
        self.exclusive = Some(InsertionPoint::AtEnd);
        self
    }
    fn before_commands(mut self) -> Self {
        self.exclusive = Some(InsertionPoint::BeforeCommands);
        self
    }
    fn with_run_criteria(mut self, rc: RunCriteriaDescriptorOrLabel) -> Self {
        self.run_criteria = Some(rc);
        self
    }
    fn d(self) -> SystemDescriptor {
        let deps = LabelSet { labels: self.labels, before: self.before, after: self.after };
        match self.exclusive {
            Some(p) => SystemDescriptor::Exclusive(ExclusiveSystemDescriptor {
                system: SystemId(self.system),
                deps,
                run_criteria: self.run_criteria,
                insertion_point: p,
            }),
            None => SystemDescriptor::Parallel(ParallelSystemDescriptor {
                system: SystemId(self.system),
                deps,
                run_criteria: self.run_criteria,
            }),
        }
    }
}

fn criteria(system: u64, label: Option<&str>) -> RunCriteriaDescriptor {
    RunCriteriaDescriptor {
        system: SystemId(system),
        label: label.map(l),
        duplicate_label_strategy: DuplicateLabelStrategy::Panic,
        piped: false,
        before: vec![],
        after: vec![],
    }
}

fn piped(system: u64, input: &str, label: Option<&str>) -> RunCriteriaDescriptor {
    RunCriteriaDescriptor {
        system: SystemId(system),
        label: label.map(l),
        duplicate_label_strategy: DuplicateLabelStrategy::Panic,
        piped: true,
        before: vec![],
        after: vec![l(input)],
    }
}

fn full(rc: RunCriteriaDescriptor) -> RunCriteriaDescriptorOrLabel {
    RunCriteriaDescriptorOrLabel::Descriptor(rc)
}

fn named(s: &str) -> RunCriteriaDescriptorOrLabel {
    RunCriteriaDescriptorOrLabel::Label(l(s))
}

/// Prepares a stage to run on world `world_id` as a run does: a stage that may not be prepared
/// is refused with the reason, before anything is prepared.
fn prepare_checked(stage: &mut SystemStage, world_id: u64) -> Result<(), StageError> {
    if !stage.can_run_on(world_id) {
        return Err(StageError::WrongWorld);
    }
    if stage.systems_modified {
        if let Some(label) = stage.duplicate_run_criteria_label() {
            return Err(StageError::DuplicateRunCriteriaLabel(label));
        }
        stage.initialize_systems();
        if let Some(e) = stage.rebuild_refusal() {
            return Err(e);
        }
    }
    stage.prepare(world_id);
    Ok(())
}

/// Stands in for the world: the tags systems push, and the local state of criteria systems.
#[derive(Default)]
struct Harness {
    out: Vec<u64>,
    has_ran: HashMap<u64, bool>,
}

impl Harness {
    fn every_other_time(&mut self, system: u64) -> ShouldRun {
        let has_ran = self.has_ran.entry(system).or_insert(false);
        *has_ran = !*has_ran;
        if *has_ran {
            ShouldRun::Yes
        } else {
            ShouldRun::No
        }
    }

    fn run_criteria(&mut self, system: SystemId, input: Option<ShouldRun>) -> ShouldRun {
        if system.0 >= PIPED {
            match input {
                Some(ShouldRun::Yes) | Some(ShouldRun::YesAndCheckAgain) => self.every_other_time(system.0),
                _ => ShouldRun::No,
            }
        } else {
            self.every_other_time(system.0)
        }
    }

    /// Runs the stage once, as its run loop does.
    fn run(&mut self, stage: &mut SystemStage) -> Result<(), StageError> {
        prepare_checked(stage, 0)?;
        assert!(stage.pipes_ready());
        let (mut run, mut action) = StageRun::start();
        loop {
            let event = match action {
                RunAction::AskStageCriteria => RunEvent::Answer(ShouldRun::Yes),
                RunAction::EvaluateCriteria(index, input) => {
                    RunEvent::Answer(self.run_criteria(stage.run_criteria[index].system, input))
                }
                RunAction::RunPass(plan) => {
                    for step in plan.steps() {
                        if let PassStep::Run(id) = step {
                            self.out.push(id.0);
                        }
                    }
                    RunEvent::Done
                }
                RunAction::ReadChangeTick => RunEvent::ChangeTick(stage.last_tick_check),
                RunAction::ClampChangeTicks(_) | RunAction::Continue => RunEvent::Done,
                RunAction::Finish => return Ok(()),
            };
            action = run.step(stage, event);
        }
    }
}

fn stage_of(systems: Vec<Sys>) -> SystemStage {
    let mut stage = SystemStage::parallel();
    for s in systems {
        stage = stage.with_system(s.d());
    }
    stage
}

fn run_twice(stage: &mut SystemStage) -> Vec<u64> {
    let mut h = Harness::default();
    h.run(stage).unwrap();
    stage.set_executor(ExecutorKind::SingleThreaded);
    h.run(stage).unwrap();
    h.out
}

#[test]
fn insertion_points() {
    let stages = vec![
        vec![
            make_exclusive(0).exclusive_system().at_start(),
            make_parallel(1),
            make_exclusive(2).exclusive_system().before_commands(),
            make_exclusive(3).exclusive_system().at_end(),
        ],
        vec![
            make_exclusive(2).exclusive_system().before_commands(),
            make_exclusive(3).exclusive_system().at_end(),
            make_parallel(1),
            make_exclusive(0).exclusive_system().at_start(),
        ],
        vec![
            make_parallel(2).exclusive_system().before_commands(),
            make_parallel(3).exclusive_system().at_end(),
            make_parallel(1),
            make_parallel(0).exclusive_system().at_start(),
        ],
    ];
    for systems in stages {
        let mut stage = stage_of(systems);
        let mut h = Harness::default();
        h.run(&mut stage).unwrap();
        assert_eq!(h.out, vec![0, 1, 2, 3]);
        stage.set_executor(ExecutorKind::SingleThreaded);
        h.run(&mut stage).unwrap();
        assert_eq!(h.out, vec![0, 1, 2, 3, 0, 1, 2, 3]);
    }
}

#[test]
fn exclusive_after() {
    let mut stage = stage_of(vec![
        make_exclusive(1).label("1").after("0"),
        make_exclusive(2).after("1"),
        make_exclusive(0).label("0"),
    ]);
    assert_eq!(run_twice(&mut stage), vec![0, 1, 2, 0, 1, 2]);
}

#[test]
fn exclusive_before() {
    let mut stage = stage_of(vec![
        make_exclusive(1).label("1").before("2"),
        make_exclusive(2).label("2"),
        make_exclusive(0).before("1"),
    ]);
    assert_eq!(run_twice(&mut stage), vec![0, 1, 2, 0, 1, 2]);
}

#[test]
fn exclusive_mixed() {
    let mut stage = stage_of(vec![
        make_exclusive(2).label("2"),
        make_exclusive(1).after("0").before("2"),
        make_exclusive(0).label("0"),
        make_exclusive(4).label("4"),
        make_exclusive(3).after("2").before("4"),
    ]);
    assert_eq!(run_twice(&mut stage), vec![0, 1, 2, 3, 4, 0, 1, 2, 3, 4]);
}

#[test]
fn exclusive_multiple_labels() {
    let mut stage = stage_of(vec![
        make_exclusive(1).label("first").after("0"),
        make_exclusive(2).after("first"),
        make_exclusive(0).label("first").label("0"),
    ]);
    assert_eq!(run_twice(&mut stage), vec![0, 1, 2, 0, 1, 2]);

    let mut stage = stage_of(vec![
        make_exclusive(2).after("01").label("2"),
        make_exclusive(1).label("01").after("0"),
        make_exclusive(0).label("01").label("0"),
        make_exclusive(4).label("4"),
        make_exclusive(3).after("2").before("4"),
    ]);
    assert_eq!(run_twice(&mut stage), vec![0, 1, 2, 3, 4, 0, 1, 2, 3, 4]);

    let mut stage = stage_of(vec![
        make_exclusive(2).label("234").label("2"),
        make_exclusive(1).before("234").after("0"),
        make_exclusive(0).label("0"),
        make_exclusive(4).label("234").label("4"),
        make_exclusive(3).label("234").after("2").before("4"),
    ]);
    assert_eq!(run_twice(&mut stage), vec![0, 1, 2, 3, 4, 0, 1, 2, 3, 4]);
}

#[test]
fn exclusive_redundant_constraints() {
    let mut stage = stage_of(vec![
        make_exclusive(2).label("2").after("1").before("3").before("3"),
        make_exclusive(1).label("1").after("0").after("0").before("2"),
        make_exclusive(0).label("0").before("1"),
        make_exclusive(4).label("4").after("3"),
        make_exclusive(3).label("3").after("2").before("4"),
    ]);
    assert_eq!(run_twice(&mut stage), vec![0, 1, 2, 3, 4, 0, 1, 2, 3, 4]);
}

#[test]
fn exclusive_mixed_across_sets() {
    let set = SystemSet {
        run_criteria: None,
        systems: vec![
            make_exclusive(0).label("0").d(),
            make_exclusive(4).label("4").d(),
            make_exclusive(3).after("2").before("4").d(),
        ],
    };
    let mut stage = SystemStage::parallel()
        .with_system(make_exclusive(2).label("2").d())
        .with_system_set(set)
        .with_system(make_exclusive(1).after("0").before("2").d());
    assert_eq!(run_twice(&mut stage), vec![0, 1, 2, 3, 4, 0, 1, 2, 3, 4]);
}

#[test]
fn exclusive_run_criteria() {
    let set = SystemSet {
        run_criteria: Some(full(criteria(EOT, None))),
        systems: vec![make_exclusive(1).label("1").d()],
    };
    let mut stage = SystemStage::parallel()
        .with_system(make_exclusive(0).before("1").d())
        .with_system_set(set)
        .with_system(make_exclusive(2).after("1").d());
    let mut h = Harness::default();
    h.run(&mut stage).unwrap();
    h.run(&mut stage).unwrap();
    stage.set_executor(ExecutorKind::SingleThreaded);
    h.run(&mut stage).unwrap();
    h.run(&mut stage).unwrap();
    assert_eq!(h.out, vec![0, 1, 2, 0, 2, 0, 1, 2, 0, 2]);
}

#[test]
fn exclusive_cycle_1() {
    let mut stage = stage_of(vec![make_exclusive(0).label("0").after("0")]);
    let mut h = Harness::default();
    assert_eq!(h.run(&mut stage), Err(StageError::DependencyCycle(Some(Group::AtStart))));
}

#[test]
fn exclusive_cycle_2() {
    let mut stage = stage_of(vec![
        make_exclusive(0).label("0").after("1"),
        make_exclusive(1).label("1").after("0"),
    ]);
    let mut h = Harness::default();
    assert_eq!(h.run(&mut stage), Err(StageError::DependencyCycle(Some(Group::AtStart))));
}

#[test]
fn exclusive_cycle_3() {
    let mut stage = stage_of(vec![
        make_exclusive(0).label("0"),
        make_exclusive(1).after("0").before("2"),
        make_exclusive(2).label("2").before("0"),
    ]);
    let mut h = Harness::default();
    assert_eq!(h.run(&mut stage), Err(StageError::DependencyCycle(Some(Group::AtStart))));
}

#[test]
fn parallel_after() {
    let mut stage = stage_of(vec![
        make_parallel(1).after("0").label("1"),
        make_parallel(2).after("1"),
        make_parallel(0).label("0"),
    ]);
    assert_eq!(run_twice(&mut stage), vec![0, 1, 2, 0, 1, 2]);
}

#[test]
fn parallel_before() {
    let mut stage = stage_of(vec![
        make_parallel(1).label("1").before("2"),
        make_parallel(2).label("2"),
        make_parallel(0).before("1"),
    ]);
    assert_eq!(run_twice(&mut stage), vec![0, 1, 2, 0, 1, 2]);
}

#[test]
fn parallel_mixed() {
    let mut stage = stage_of(vec![
        make_parallel(2).label("2"),
        make_parallel(1).after("0").before("2"),
        make_parallel(0).label("0"),
        make_parallel(4).label("4"),
        make_parallel(3).after("2").before("4"),
    ]);
    assert_eq!(run_twice(&mut stage), vec![0, 1, 2, 3, 4, 0, 1, 2, 3, 4]);
}

#[test]
fn parallel_multiple_labels() {
    let mut stage = stage_of(vec![
        make_parallel(1).label("first").after("0"),
        make_parallel(2).after("first"),
        make_parallel(0).label("first").label("0"),
    ]);
    assert_eq!(run_twice(&mut stage), vec![0, 1, 2, 0, 1, 2]);

    let mut stage = stage_of(vec![
        make_parallel(2).after("01").label("2"),
        make_parallel(1).label("01").after("0"),
        make_parallel(0).label("01").label("0"),
        make_parallel(4).label("4"),
        make_parallel(3).after("2").before("4"),
    ]);
    assert_eq!(run_twice(&mut stage), vec![0, 1, 2, 3, 4, 0, 1, 2, 3, 4]);

    let mut stage = stage_of(vec![
        make_parallel(2).label("234").label("2"),
        make_parallel(1).before("234").after("0"),
        make_parallel(0).label("0"),
        make_parallel(4).label("234").label("4"),
        make_parallel(3).label("234").after("2").before("4"),
    ]);
    assert_eq!(run_twice(&mut stage), vec![0, 1, 2, 3, 4, 0, 1, 2, 3, 4]);
}

#[test]
fn parallel_redundant_constraints() {
    let mut stage = stage_of(vec![
        make_parallel(2).label("2").after("1").before("3").before("3"),
        make_parallel(1).label("1").after("0").after("0").before("2"),
        make_parallel(0).label("0").before("1"),
        make_parallel(4).label("4").after("3"),
        make_parallel(3).label("3").after("2").before("4"),
    ]);
    let mut h = Harness::default();
    h.run(&mut stage).unwrap();
    for container in stage.parallel_systems() {
        assert!(container.dependencies.len() <= 1);
    }
    stage.set_executor(ExecutorKind::SingleThreaded);
    h.run(&mut stage).unwrap();
    assert_eq!(h.out, vec![0, 1, 2, 3, 4, 0, 1, 2, 3, 4]);
}

#[test]
fn parallel_mixed_across_sets() {
    let set = SystemSet {
        run_criteria: None,
        systems: vec![
            make_parallel(0).label("0").d(),
            make_parallel(4).label("4").d(),
            make_parallel(3).after("2").before("4").d(),
        ],
    };
    let mut stage = SystemStage::parallel()
        .with_system(make_parallel(2).label("2").d())
        .with_system_set(set)
        .with_system(make_parallel(1).after("0").before("2").d());
    assert_eq!(run_twice(&mut stage), vec![0, 1, 2, 3, 4, 0, 1, 2, 3, 4]);
}

#[test]
fn parallel_run_criteria() {
    let mut stage = stage_of(vec![
        make_parallel(0).label("0").with_run_criteria(full(criteria(EOT, None))),
        make_parallel(1).after("0"),
    ]);
    let mut h = Harness::default();
    h.run(&mut stage).unwrap();
    h.run(&mut stage).unwrap();
    stage.set_executor(ExecutorKind::SingleThreaded);
    h.run(&mut stage).unwrap();
    h.run(&mut stage).unwrap();
    assert_eq!(h.out, vec![0, 1, 1, 0, 1, 1]);

    let set = SystemSet {
        run_criteria: Some(full(criteria(EOT, None))),
        systems: vec![make_parallel(1).label("1").d()],
    };
    let mut stage = SystemStage::parallel()
        .with_system(make_parallel(0).before("1").d())
        .with_system_set(set)
        .with_system(make_parallel(2).after("1").d());
    let mut h = Harness::default();
    h.run(&mut stage).unwrap();
    h.run(&mut stage).unwrap();
    stage.set_executor(ExecutorKind::SingleThreaded);
    h.run(&mut stage).unwrap();
    h.run(&mut stage).unwrap();
    assert_eq!(h.out, vec![0, 1, 2, 0, 2, 0, 1, 2, 0, 2]);

    // Reusing criteria.
    let mut stage = SystemStage::parallel()
        .with_system_run_criteria(criteria(EOT, Some("every other time")))
        .with_system(make_parallel(0).before("1").d())
        .with_system(make_parallel(1).label("1").with_run_criteria(named("every other time")).d())
        .with_system(make_parallel(2).label("2").after("1").with_run_criteria(named("every other time")).d())
        .with_system(make_parallel(3).after("2").d());
    let mut h = Harness::default();
    h.run(&mut stage).unwrap();
    h.run(&mut stage).unwrap();
    stage.set_executor(ExecutorKind::SingleThreaded);
    h.run(&mut stage).unwrap();
    h.run(&mut stage).unwrap();
    assert_eq!(h.out, vec![0, 1, 2, 3, 0, 3, 0, 1, 2, 3, 0, 3]);
    assert_eq!(stage.run_criteria.len(), 1);

    // Piping criteria.
    let mut stage = stage_of(vec![
        make_parallel(0).label("0"),
        make_parallel(1).label("1").after("0").with_run_criteria(full(criteria(EOT, Some("every other time")))),
        make_parallel(2).label("2").after("1").with_run_criteria(full(piped(PIPED, "every other time", None))),
        make_parallel(3)
            .label("3")
            .after("2")
            .with_run_criteria(full(piped(PIPED + 1, "every other time", Some("piped")))),
        make_parallel(4).after("3").with_run_criteria(named("piped")),
    ]);
    let mut h = Harness::default();
    for _ in 0..4 {
        h.run(&mut stage).unwrap();
    }
    stage.set_executor(ExecutorKind::SingleThreaded);
    for _ in 0..5 {
        h.run(&mut stage).unwrap();
    }
    assert_eq!(h.out, vec![0, 1, 2, 3, 4, 0, 0, 1, 0, 0, 1, 2, 3, 4, 0, 0, 1, 0, 0, 1, 2, 3, 4]);
    assert_eq!(stage.run_criteria.len(), 3);

    // Discarding extra criteria with matching labels.
    let mut discard_first = criteria(EOT, Some("every other time"));
    discard_first.duplicate_label_strategy = DuplicateLabelStrategy::Discard;
    let mut discard_second = criteria(EOT + 1, Some("every other time"));
    discard_second.duplicate_label_strategy = DuplicateLabelStrategy::Discard;
    let mut stage = stage_of(vec![
        make_parallel(0).before("1"),
        make_parallel(1).label("1").with_run_criteria(full(discard_first)),
        make_parallel(2).label("2").after("1").with_run_criteria(full(discard_second)),
        make_parallel(3).after("2"),
    ]);
    let mut h = Harness::default();
    h.run(&mut stage).unwrap();
    h.run(&mut stage).unwrap();
    stage.set_executor(ExecutorKind::SingleThreaded);
    h.run(&mut stage).unwrap();
    h.run(&mut stage).unwrap();
    assert_eq!(h.out, vec![0, 1, 2, 3, 0, 3, 0, 1, 2, 3, 0, 3]);
    assert_eq!(stage.run_criteria.len(), 1);
}

#[test]
fn duplicate_run_criteria_label_panic() {
    let mut stage = SystemStage::parallel()
        .with_system_run_criteria(criteria(EOT, Some("every other time")))
        .with_system_run_criteria(criteria(EOT + 1, Some("every other time")));
    let mut h = Harness::default();
    assert_eq!(h.run(&mut stage), Err(StageError::DuplicateRunCriteriaLabel(l("every other time"))));
}

#[test]
fn parallel_cycle_1() {
    let mut stage = stage_of(vec![make_parallel(0).label("0").after("0")]);
    let mut h = Harness::default();
    assert_eq!(h.run(&mut stage), Err(StageError::DependencyCycle(Some(Group::Parallel))));
}

#[test]
fn parallel_cycle_2() {
    let mut stage = stage_of(vec![
        make_parallel(0).label("0").after("1"),
        make_parallel(1).label("1").after("0"),
    ]);
    let mut h = Harness::default();
    assert_eq!(h.run(&mut stage), Err(StageError::DependencyCycle(Some(Group::Parallel))));
}

#[test]
fn parallel_cycle_3() {
    let mut stage = stage_of(vec![
        make_parallel(0).label("0"),
        make_parallel(1).after("0").before("2"),
        make_parallel(2).label("2").before("0"),
    ]);
    let mut h = Harness::default();
    assert_eq!(h.run(&mut stage), Err(StageError::DependencyCycle(Some(Group::Parallel))));
}

#[test]
fn multiple_worlds_same_stage() {
    let mut stage = SystemStage::parallel();
    assert_eq!(prepare_checked(&mut stage, 1), Ok(()));
    assert_eq!(stage.world_id, Some(1));
    assert_eq!(prepare_checked(&mut stage, 2), Err(StageError::WrongWorld));
    assert_eq!(stage.world_id, Some(1));
}

#[test]
fn change_ticks_wrapover() {
    let max_delta: u32 = (u32::MAX / 4) * 3;
    assert_eq!(MAX_CHANGE_AGE, max_delta);

    let mut change_tick: u32 = 0;
    let mut ticks = ComponentTicks::new(change_tick);
    change_tick = change_tick.wrapping_add(max_delta + 1);

    let mut stage = SystemStage::parallel().with_system(make_parallel(0).d());
    // Overflow twice
    for _ in 0..10 {
        let mut h = Harness::default();
        h.run(&mut stage).unwrap();
        change_tick = change_tick.wrapping_add(1);
        if stage.check_change_ticks(change_tick) {
            ticks.check_ticks(change_tick);
        }
        assert!(change_tick.wrapping_sub(ticks.added) <= max_delta);
        assert!(change_tick.wrapping_sub(ticks.changed) <= max_delta);
        change_tick = change_tick.wrapping_add(MIN_TIME_SINCE_LAST_CHECK + 1);
    }
}

#[test]
fn change_query_wrapover() {
    let component_ticks = [0, u32::MAX / 4, u32::MAX / 2, u32::MAX / 4 * 3, u32::MAX];
    let ticks: Vec<ComponentTicks> = component_ticks.iter().map(|t| ComponentTicks::new(*t)).collect();
    let test_cases: [(u32, u32, Vec<usize>); 2] = [
        // normal
        (0, u32::MAX / 2, vec![1, 2]),
        // just wrapped over
        (u32::MAX / 2, 0, vec![0, 3, 4]),
    ];
    for (last_change_tick, change_tick, changed_entities) in test_cases.iter() {
        let changed: Vec<usize> = (0..ticks.len())
            .filter(|i| ticks[*i].is_changed(*last_change_tick, *change_tick))
            .collect();
        assert_eq!(changed, *changed_entities);
    }
}

/// Stands in for a world holding a count of entities, for criteria that read it.
struct Counting {
    entities: usize,
    queued_spawns: usize,
    out: Vec<usize>,
}

impl Counting {
    fn even(&self) -> ShouldRun {
        if self.entities % 2 == 0 {
            ShouldRun::Yes
        } else {
            ShouldRun::No
        }
    }

    /// Runs a stage whose run criteria (if any) count entities, whose system 0 spawns one through
    /// its commands and whose system 1 records the count.
    fn run(&mut self, stage: &mut SystemStage, stage_criteria: bool) {
        prepare_checked(stage, 0).unwrap();
        assert!(stage.pipes_ready());
        let (mut run, mut action) = StageRun::start();
        loop {
            let event = match action {
                RunAction::AskStageCriteria => RunEvent::Answer(if stage_criteria { self.even() } else { ShouldRun::Yes }),
                RunAction::EvaluateCriteria(_, _) => RunEvent::Answer(self.even()),
                RunAction::RunPass(plan) => {
                    for s in &plan.parallel {
                        match s.0 {
                            0 => self.queued_spawns += 1,
                            _ => self.out.push(self.entities),
                        }
                    }
                    for s in &plan.buffers {
                        if s.0 == 0 {
                            self.entities += self.queued_spawns;
                            self.queued_spawns = 0;
                        }
                    }
                    RunEvent::Done
                }
                RunAction::ReadChangeTick => RunEvent::ChangeTick(stage.last_tick_check),
                RunAction::ClampChangeTicks(_) | RunAction::Continue => RunEvent::Done,
                RunAction::Finish => return,
            };
            action = run.step(stage, event);
        }
    }
}

#[test]
fn run_criteria_with_query() {
    let set = SystemSet {
        run_criteria: Some(full(criteria(EOT, None))),
        systems: vec![make_parallel(1).before("spawn").d()],
    };
    let mut stage = SystemStage::parallel().with_system(make_parallel(0).label("spawn").d()).with_system_set(set);
    let mut world = Counting { entities: 0, queued_spawns: 0, out: vec![] };
    for _ in 0..4 {
        world.run(&mut stage, false);
    }
    assert_eq!(world.out, vec![0, 2]);
}

#[test]
fn stage_run_criteria_with_query() {
    let mut stage_spawn = SystemStage::parallel().with_system(make_parallel(0).d());
    let mut stage_count = SystemStage::parallel().with_run_criteria(SystemId(EOT)).with_system(make_parallel(1).d());
    let mut world = Counting { entities: 0, queued_spawns: 0, out: vec![] };
    for _ in 0..4 {
        world.run(&mut stage_count, true);
        world.run(&mut stage_spawn, false);
    }
    assert_eq!(world.out, vec![0, 2]);
}

#[test]
fn buffers_applied_by_hand_cover_every_parallel_system() {
    let mut stage = stage_of(vec![make_parallel(0).label("0"), make_parallel(1).after("0"), make_exclusive(2)]);
    stage.set_apply_buffers(false);
    let mut h = Harness::default();
    h.run(&mut stage).unwrap();
    assert_eq!(stage.buffers_to_apply(), vec![]);
    assert_eq!(stage.parallel_system_ids(), vec![SystemId(0), SystemId(1)]);
}
