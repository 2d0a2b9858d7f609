//! Running a stage: its run loop as a state machine. Each step takes what the world answered to
//! the last action (the answer of a run criteria, the world's change tick, or that the action is
//! done) and gives the next action: ask a run criteria, run a pass of systems, read or clamp the
//! change ticks, or finish.
use vstd::prelude::*;
use crate::stage::{
    answers_yes, system_answer, Group, RunCriteriaContainer, ShouldRun, SystemContainer, SystemId, SystemStage,
    MIN_TIME_SINCE_LAST_CHECK,
};
use crate::ticks::tick_delta;
use crate::graph::{law_kept_nodes_keep_order, lemma_filter_push, respects_order};

verus! {

/// Every piped run criteria takes its input from one placed before it.
pub open spec fn pipes_ordered(criteria: Seq<RunCriteriaContainer>) -> bool {
    forall|k: int| 0 <= k < criteria.len() && (#[trigger] criteria[k]).piped ==> criteria[k].input < k
}

/// The input run criteria `i` is run with: the answer of its input criteria when piped.
pub open spec fn input_of(criteria: Seq<RunCriteriaContainer>, i: int) -> Option<ShouldRun> {
    if criteria[i].piped {
        Some(criteria[criteria[i].input as int].should_run)
    } else {
        None
    }
}

/// `s1` is `s0` with `answer` recorded as the answer of run criteria `i`.
pub open spec fn recorded(s0: SystemStage, s1: SystemStage, i: int, answer: ShouldRun) -> bool {
    &&& s1.run_criteria@.len() == s0.run_criteria@.len()
    &&& s1.run_criteria@[i].should_run == answer
    &&& ({
        let (a, b) = (s0.run_criteria@[i], s1.run_criteria@[i]);
        &&& b.system == a.system
        &&& b.label == a.label
        &&& b.labels == a.labels
        &&& b.before == a.before
        &&& b.after == a.after
        &&& b.piped == a.piped
        &&& b.input == a.input
    })
    &&& forall|j: int| 0 <= j < s0.run_criteria@.len() && j != i ==> #[trigger] s1.run_criteria@[j] == s0.run_criteria@[j]
    &&& s1.same_groups(&s0)
    &&& s1.uninitialized_run_criteria == s0.uninitialized_run_criteria
    &&& s1.same_settings(&s0)
    &&& s1.systems_modified == s0.systems_modified
}

/// `s1` is `s0` with each parallel system marked by whether it runs when systems without run
/// criteria get `default`.
pub open spec fn marked(s0: SystemStage, s1: SystemStage, default: ShouldRun) -> bool {
    &&& s1.parallel@.len() == s0.parallel@.len()
    &&& forall|i: int| 0 <= i < s0.parallel@.len() ==> {
        let (a, b) = (s0.parallel@[i], #[trigger] s1.parallel@[i]);
        &&& b.system == a.system
        &&& b.deps == a.deps
        &&& b.run_criteria_index == a.run_criteria_index
        &&& b.run_criteria_label == a.run_criteria_label
        &&& b.dependencies == a.dependencies
        &&& b.should_run == answers_yes(system_answer(a, s0.run_criteria@, default))
    }
    &&& s1.run_criteria == s0.run_criteria
    &&& s1.exclusive_at_start == s0.exclusive_at_start
    &&& s1.exclusive_before_commands == s0.exclusive_before_commands
    &&& s1.exclusive_at_end == s0.exclusive_at_end
    &&& s1.uninitialized_run_criteria == s0.uninitialized_run_criteria
    &&& s1.uninitialized_at_start == s0.uninitialized_at_start
    &&& s1.uninitialized_before_commands == s0.uninitialized_before_commands
    &&& s1.uninitialized_at_end == s0.uninitialized_at_end
    &&& s1.uninitialized_parallel == s0.uninitialized_parallel
    &&& s1.same_settings(&s0)
    &&& s1.systems_modified == s0.systems_modified
}

/// `s1` is `s0` with the change ticks checked at `change_tick`.
pub open spec fn ticked(s0: SystemStage, s1: SystemStage, change_tick: u32) -> bool {
    &&& s1.last_tick_check == change_tick
    &&& s1.run_criteria == s0.run_criteria
    &&& s1.same_groups(&s0)
    &&& s1.uninitialized_run_criteria == s0.uninitialized_run_criteria
    &&& s1.world_id == s0.world_id
    &&& s1.executor == s0.executor
    &&& s1.stage_run_criteria == s0.stage_run_criteria
    &&& s1.executor_modified == s0.executor_modified
    &&& s1.apply_buffers == s0.apply_buffers
    &&& s1.systems_modified == s0.systems_modified
}

/// The systems one pass runs, group by group, in the order they run.
pub struct PassPlan {
    /// The exclusive systems that run at the start.
    pub at_start: Vec<SystemId>,
    /// The parallel systems, which the executor runs.
    pub parallel: Vec<SystemId>,
    /// The exclusive systems that run before the command buffers are applied.
    pub before_commands: Vec<SystemId>,
    /// The parallel systems whose command buffers are applied.
    pub buffers: Vec<SystemId>,
    /// The exclusive systems that run at the end.
    pub at_end: Vec<SystemId>,
}

/// `p` is what a pass of `s` runs, systems without run criteria getting `default`; the parallel
/// systems of `s` are already marked.
pub open spec fn plan_of(p: PassPlan, s: SystemStage, default: ShouldRun) -> bool {
    &&& p.at_start@ == s.group(Group::AtStart).filter(|c: SystemContainer| answers_yes(system_answer(c, s.run_criteria@, default))).map_values(|c: SystemContainer| c.system)
    &&& p.parallel@ == s.parallel@.filter(|c: SystemContainer| c.should_run).map_values(|c: SystemContainer| c.system)
    &&& p.before_commands@ == s.group(Group::BeforeCommands).filter(|c: SystemContainer| answers_yes(system_answer(c, s.run_criteria@, default))).map_values(|c: SystemContainer| c.system)
    &&& p.buffers@ == if s.apply_buffers {
        s.parallel@.filter(|c: SystemContainer| c.should_run).map_values(|c: SystemContainer| c.system)
    } else {
        Seq::<SystemId>::empty()
    }
    &&& p.at_end@ == s.group(Group::AtEnd).filter(|c: SystemContainer| answers_yes(system_answer(c, s.run_criteria@, default))).map_values(|c: SystemContainer| c.system)
}

/// One step of a pass: run a system, or apply the command buffers of a parallel system.
#[derive(Debug, Clone, Copy, PartialEq, Eq, Structural)]
pub enum PassStep {
    Run(SystemId),
    ApplyBuffers(SystemId),
}

/// The steps of running each of `ids`.
pub open spec fn run_steps(ids: Seq<SystemId>) -> Seq<PassStep> {
    ids.map_values(|id: SystemId| PassStep::Run(id))
}

/// The steps of a pass, in the order they are carried out: the exclusive systems that run at the
/// start, then the parallel systems, then the exclusive systems that run before commands, then
/// the command buffers of the parallel systems, then the exclusive systems that run at the end.
pub open spec fn pass_steps(p: PassPlan) -> Seq<PassStep> {
    run_steps(p.at_start@) + run_steps(p.parallel@) + run_steps(p.before_commands@)
        + p.buffers@.map_values(|id: SystemId| PassStep::ApplyBuffers(id)) + run_steps(p.at_end@)
}

/// Appends a step for each of `ids`: running it, or applying its buffers.
fn push_steps(steps: &mut Vec<PassStep>, ids: &Vec<SystemId>, apply: bool)
    ensures
        final(steps)@ == old(steps)@ + if apply {
            ids@.map_values(|id: SystemId| PassStep::ApplyBuffers(id))
        } else {
            run_steps(ids@)
        },
{
    let ghost start = steps@;
    let mut i: usize = 0;
    while i < ids.len()
        invariant
            i <= ids@.len(),
            steps@ == start + if apply {
                ids@.take(i as int).map_values(|id: SystemId| PassStep::ApplyBuffers(id))
            } else {
                run_steps(ids@.take(i as int))
            },
        decreases ids@.len() - i,
    {
        let id = ids[i];
        if apply {
            steps.push(PassStep::ApplyBuffers(id));
            assert(ids@.take(i + 1).map_values(|id: SystemId| PassStep::ApplyBuffers(id))
                =~= ids@.take(i as int).map_values(|id: SystemId| PassStep::ApplyBuffers(id)).push(PassStep::ApplyBuffers(id)));
        } else {
            steps.push(PassStep::Run(id));
            assert(run_steps(ids@.take(i + 1)) =~= run_steps(ids@.take(i as int)).push(PassStep::Run(id)));
        }
        i += 1;
    }
    assert(ids@.take(ids@.len() as int) =~= ids@);
}

impl PassPlan {
    /// The steps of the pass, in the order they are carried out (see `pass_steps`).
    pub fn steps(&self) -> (r: Vec<PassStep>)
        ensures
            r@ == pass_steps(*self),
    {
        let mut steps: Vec<PassStep> = Vec::new();
        push_steps(&mut steps, &self.at_start, false);
        push_steps(&mut steps, &self.parallel, false);
        push_steps(&mut steps, &self.before_commands, false);
        push_steps(&mut steps, &self.buffers, true);
        push_steps(&mut steps, &self.at_end, false);
        assert(steps@ =~= pass_steps(*self));
        steps
    }
}

/// What a run waits for: the answer to the action it gave last.
#[derive(Debug, Clone, Copy, PartialEq, Eq, Structural)]
pub enum RunPhase {
    /// The stage's own run criteria was asked.
    AskingStage,
    /// Run criteria `i` was asked, before the first pass.
    Evaluating(usize),
    /// A pass was handed out.
    Passing,
    /// The world's change tick was asked for.
    ReadingTick,
    /// The change ticks are being clamped.
    Clamping,
    /// Run criteria `i` needed no answer after a pass.
    Settling(usize),
    /// Run criteria `i` was asked again after a pass.
    Reevaluating(usize),
    /// The run is over.
    Finished,
}

/// What the world answers to an action.
#[derive(Debug, Clone, Copy, PartialEq, Eq, Structural)]
pub enum RunEvent {
    /// The answer of the run criteria that was asked.
    Answer(ShouldRun),
    /// The action is done.
    Done,
    /// The world's change tick.
    ChangeTick(u32),
}

/// What the world is asked to do next.
pub enum RunAction {
    /// Run the stage's own run criteria and answer with what it says (`Yes` when it has none).
    AskStageCriteria,
    /// Run run criteria `index`, with this input when it is piped, and answer with what it says.
    EvaluateCriteria(usize, Option<ShouldRun>),
    /// Run a pass of systems, then answer `Done`.
    RunPass(PassPlan),
    /// Answer with the world's change tick.
    ReadChangeTick,
    /// Clamp the change ticks of the world and its systems at this tick, then answer `Done`.
    ClampChangeTicks(u32),
    /// Nothing to do: answer `Done`.
    Continue,
    /// The run is over.
    Finish,
}

/// A run of a stage in progress.
#[derive(Debug, Clone, Copy, PartialEq, Eq, Structural)]
pub struct StageRun {
    pub phase: RunPhase,
    /// The stage's run criteria said to run once more only.
    pub once: bool,
    /// What systems without run criteria get in the coming pass: yes in the first pass of a
    /// round, no after.
    pub default: ShouldRun,
    /// A run criteria asked for another pass.
    pub again: bool,
}

/// Whether `event` is an answer to what a run in `phase` waits for.
pub open spec fn expects(phase: RunPhase, event: RunEvent) -> bool {
    match phase {
        RunPhase::AskingStage | RunPhase::Evaluating(_) | RunPhase::Reevaluating(_) => event is Answer,
        RunPhase::Passing | RunPhase::Clamping | RunPhase::Settling(_) => event is Done,
        RunPhase::ReadingTick => event is ChangeTick,
        RunPhase::Finished => false,
    }
}

/// The run criteria a run waits on exist in the stage.
pub open spec fn in_step(r: StageRun, s: SystemStage) -> bool {
    match r.phase {
        RunPhase::Evaluating(i) | RunPhase::Settling(i) | RunPhase::Reevaluating(i) => i < s.run_criteria@.len(),
        _ => true,
    }
}

/// `r0` with its phase set to `phase`.
pub open spec fn in_phase(r0: StageRun, phase: RunPhase) -> StageRun {
    StageRun { phase, once: r0.once, default: r0.default, again: r0.again }
}

/// A pass starts: the parallel systems are marked and the plan lists what runs.
pub open spec fn pass_started(r0: StageRun, s0: SystemStage, r1: StageRun, s1: SystemStage, a: RunAction) -> bool {
    &&& r1 == StageRun { phase: RunPhase::Passing, once: r0.once, default: r0.default, again: false }
    &&& marked(s0, s1, r0.default)
    &&& a matches RunAction::RunPass(p) && plan_of(p, s1, r0.default)
}

/// The run criteria are asked in order from `i` before the first pass, which starts once they
/// all answered.
pub open spec fn evaluation_from(r0: StageRun, s0: SystemStage, i: int, r1: StageRun, s1: SystemStage, a: RunAction) -> bool {
    if i < s0.run_criteria@.len() {
        &&& r1 == in_phase(r0, RunPhase::Evaluating(i as usize))
        &&& s1 == s0
        &&& a == RunAction::EvaluateCriteria(i as usize, input_of(s0.run_criteria@, i))
    } else {
        pass_started(r0, s0, r1, s1, a)
    }
}

/// A pass ends: another starts, without the default answer, when a run criteria asked for it;
/// otherwise the run is over when the stage said to run once, or the stage is asked again.
pub open spec fn pass_ended(r0: StageRun, s0: SystemStage, r1: StageRun, s1: SystemStage, a: RunAction) -> bool {
    let r = StageRun { phase: r0.phase, once: r0.once, default: ShouldRun::No, again: r0.again };
    if r0.again {
        pass_started(r, s0, r1, s1, a)
    } else if r0.once {
        r1 == in_phase(r, RunPhase::Finished) && s1 == s0 && a == RunAction::Finish
    } else {
        r1 == in_phase(r, RunPhase::AskingStage) && s1 == s0 && a == RunAction::AskStageCriteria
    }
}

/// After a pass, the run criteria are settled in order from `i`: one that said no stays no, one
/// that said yes now says no, any other is asked again; then the pass ends.
pub open spec fn reevaluation_from(r0: StageRun, s0: SystemStage, i: int, r1: StageRun, s1: SystemStage, a: RunAction) -> bool {
    if i >= s0.run_criteria@.len() {
        pass_ended(r0, s0, r1, s1, a)
    } else {
        match s0.run_criteria@[i].should_run {
            ShouldRun::No => r1 == in_phase(r0, RunPhase::Settling(i as usize)) && s1 == s0 && a == RunAction::Continue,
            ShouldRun::Yes => r1 == in_phase(r0, RunPhase::Settling(i as usize)) && recorded(s0, s1, i, ShouldRun::No)
                && a == RunAction::Continue,
            _ => {
                &&& r1 == in_phase(r0, RunPhase::Reevaluating(i as usize))
                &&& s1 == s0
                &&& a == RunAction::EvaluateCriteria(i as usize, input_of(s0.run_criteria@, i))
            },
        }
    }
}

/// One step of a run: (`r1`, `s1`) and action `a` follow (`r0`, `s0`) on `event`.
pub open spec fn stepped(r0: StageRun, s0: SystemStage, event: RunEvent, r1: StageRun, s1: SystemStage, a: RunAction) -> bool {
    match (r0.phase, event) {
        (RunPhase::AskingStage, RunEvent::Answer(x)) => match x {
            ShouldRun::No => r1 == in_phase(r0, RunPhase::Finished) && s1 == s0 && a == RunAction::Finish,
            ShouldRun::NoAndCheckAgain => r1 == r0 && s1 == s0 && a == RunAction::AskStageCriteria,
            _ => evaluation_from(
                StageRun { phase: r0.phase, once: x == ShouldRun::Yes, default: ShouldRun::Yes, again: r0.again },
                s0,
                0,
                r1,
                s1,
                a,
            ),
        },
        (RunPhase::Evaluating(i), RunEvent::Answer(x)) => exists|mid: SystemStage|
            #[trigger] recorded(s0, mid, i as int, x) && evaluation_from(r0, mid, i + 1, r1, s1, a),
        (RunPhase::Passing, RunEvent::Done) => r1 == in_phase(r0, RunPhase::ReadingTick) && s1 == s0 && a == RunAction::ReadChangeTick,
        (RunPhase::ReadingTick, RunEvent::ChangeTick(t)) => if tick_delta(t, s0.last_tick_check) > MIN_TIME_SINCE_LAST_CHECK {
            r1 == in_phase(r0, RunPhase::Clamping) && ticked(s0, s1, t) && a == RunAction::ClampChangeTicks(t)
        } else {
            reevaluation_from(r0, s0, 0, r1, s1, a)
        },
        (RunPhase::Clamping, RunEvent::Done) => reevaluation_from(r0, s0, 0, r1, s1, a),
        (RunPhase::Settling(i), RunEvent::Done) => reevaluation_from(r0, s0, i + 1, r1, s1, a),
        (RunPhase::Reevaluating(i), RunEvent::Answer(x)) => exists|mid: SystemStage|
            #[trigger] recorded(s0, mid, i as int, x) && reevaluation_from(
                StageRun { phase: r0.phase, once: r0.once, default: r0.default, again: r0.again || x != ShouldRun::No },
                mid,
                i + 1,
                r1,
                s1,
                a,
            ),
        _ => false,
    }
}

/// In a pass, each group runs the systems it runs in the order it holds them: the plan lists the
/// systems of a sequence kept from the group, and when no system of the group comes before one it
/// must run after, none of the kept ones does either.
pub proof fn law_pass_respects_order(p: PassPlan, s: SystemStage, default: ShouldRun)
    requires
        plan_of(p, s, default),
        forall|g: Group| #[trigger] respects_order(s.group(g)),
    ensures
        p.at_start@ == s.group(Group::AtStart).filter(|c: SystemContainer| answers_yes(system_answer(c, s.run_criteria@, default))).map_values(|c: SystemContainer| c.system),
        p.parallel@ == s.parallel@.filter(|c: SystemContainer| c.should_run).map_values(|c: SystemContainer| c.system),
        p.before_commands@ == s.group(Group::BeforeCommands).filter(|c: SystemContainer| answers_yes(system_answer(c, s.run_criteria@, default))).map_values(|c: SystemContainer| c.system),
        p.at_end@ == s.group(Group::AtEnd).filter(|c: SystemContainer| answers_yes(system_answer(c, s.run_criteria@, default))).map_values(|c: SystemContainer| c.system),
        respects_order(s.group(Group::AtStart).filter(|c: SystemContainer| answers_yes(system_answer(c, s.run_criteria@, default)))),
        respects_order(s.parallel@.filter(|c: SystemContainer| c.should_run)),
        respects_order(s.group(Group::BeforeCommands).filter(|c: SystemContainer| answers_yes(system_answer(c, s.run_criteria@, default)))),
        respects_order(s.group(Group::AtEnd).filter(|c: SystemContainer| answers_yes(system_answer(c, s.run_criteria@, default)))),
{
    let runs = |c: SystemContainer| answers_yes(system_answer(c, s.run_criteria@, default));
    assert(respects_order(s.group(Group::AtStart)));
    assert(respects_order(s.group(Group::Parallel)));
    assert(respects_order(s.group(Group::BeforeCommands)));
    assert(respects_order(s.group(Group::AtEnd)));
    law_kept_nodes_keep_order(s.group(Group::AtStart), runs);
    law_kept_nodes_keep_order(s.parallel@, |c: SystemContainer| c.should_run);
    law_kept_nodes_keep_order(s.group(Group::BeforeCommands), runs);
    law_kept_nodes_keep_order(s.group(Group::AtEnd), runs);
}

/// Whether an answer lets a system run: `Yes`, or `YesAndCheckAgain` (run now, and ask again
/// after the pass).
pub open spec fn lets_run(a: ShouldRun) -> bool {
    a == ShouldRun::Yes || a == ShouldRun::YesAndCheckAgain
}

/// The systems of exclusive group `g` that a pass runs.
pub open spec fn exclusive_run(p: PassPlan, g: Group) -> Seq<SystemId> {
    match g {
        Group::AtStart => p.at_start@,
        Group::BeforeCommands => p.before_commands@,
        _ => p.at_end@,
    }
}

/// Every item a filter keeps is an item of the sequence.
proof fn lemma_filter_kept_from<A>(s: Seq<A>, pred: spec_fn(A) -> bool)
    ensures
        forall|k: int| 0 <= k < s.filter(pred).len() ==> pred(s.filter(pred)[k]) && s.contains(#[trigger] s.filter(pred)[k]),
    decreases s.len(),
{
    if s.len() > 0 {
        let rest = s.drop_last();
        lemma_filter_kept_from(rest, pred);
        assert(rest.push(s.last()) =~= s);
        lemma_filter_push(rest, pred, s.last());
        assert forall|k: int| 0 <= k < s.filter(pred).len() implies pred(s.filter(pred)[k]) && s.contains(#[trigger] s.filter(pred)[k]) by {
            if k < rest.filter(pred).len() {
                assert(s.filter(pred)[k] == rest.filter(pred)[k]);
                let j = choose|j: int| 0 <= j < rest.len() && rest[j] == rest.filter(pred)[k];
                assert(s[j] == rest[j]);
            } else {
                assert(s.filter(pred)[k] == s.last());
                assert(s[s.len() - 1] == s.last());
            }
        }
    }
}

/// Whether `x` is the system of a container of exclusive group `g` of `s` whose answer lets it
/// run.
pub open spec fn answered_yes(s: SystemStage, g: Group, default: ShouldRun, x: SystemId) -> bool {
    exists|j: int| 0 <= j < s.group(g).len() && lets_run(system_answer(#[trigger] s.group(g)[j], s.run_criteria@, default))
        && s.group(g)[j].system == x
}

/// In a pass, an exclusive system runs exactly when the answer of its run criteria (or, without
/// one, the default) is `Yes` or `YesAndCheckAgain`: every such system is run, and every system
/// run is such a system. A `No` or `NoAndCheckAgain` answer keeps a system from running.
pub proof fn law_pass_runs_systems_answered_yes(p: PassPlan, s: SystemStage, default: ShouldRun, g: Group)
    requires
        plan_of(p, s, default),
        g != Group::Parallel,
    ensures
        forall|i: int| 0 <= i < s.group(g).len() && lets_run(system_answer(s.group(g)[i], s.run_criteria@, default))
            ==> exclusive_run(p, g).contains(#[trigger] s.group(g)[i].system),
        forall|k: int| 0 <= k < exclusive_run(p, g).len() ==> answered_yes(s, g, default, #[trigger] exclusive_run(p, g)[k]),
{
    broadcast use vstd::seq_lib::group_filter_ensures;
    let pred = |c: SystemContainer| answers_yes(system_answer(c, s.run_criteria@, default));
    let proj = |c: SystemContainer| c.system;
    let sg = s.group(g);
    let f = sg.filter(pred);
    lemma_filter_kept_from(sg, pred);
    assert(exclusive_run(p, g) == f.map_values(proj));
    assert forall|i: int| 0 <= i < s.group(g).len() && lets_run(system_answer(s.group(g)[i], s.run_criteria@, default))
        implies exclusive_run(p, g).contains(#[trigger] s.group(g)[i].system) by {
        assert(pred(sg[i]));
        sg.lemma_filter_contains(pred, i);
        let k = choose|k: int| 0 <= k < f.len() && f[k] == sg[i];
        assert(f.map_values(proj)[k] == sg[i].system);
    }
    assert forall|k: int| 0 <= k < exclusive_run(p, g).len() implies answered_yes(s, g, default, #[trigger] exclusive_run(p, g)[k]) by {
        assert(pred(f[k]) && sg.contains(f[k]));
        let j = choose|j: int| 0 <= j < sg.len() && sg[j] == f[k];
        assert(f.map_values(proj)[k] == sg[j].system);
        assert(lets_run(system_answer(s.group(g)[j], s.run_criteria@, default)));
    }
}

/// Recording an answer keeps a stage well formed, with its pipes ordered.
proof fn lemma_recorded_keeps_ready(s0: SystemStage, s1: SystemStage, i: int, answer: ShouldRun)
    requires
        s0.wf(),
        pipes_ordered(s0.run_criteria@),
        0 <= i < s0.run_criteria@.len(),
        recorded(s0, s1, i, answer),
    ensures
        s1.wf(),
        pipes_ordered(s1.run_criteria@),
{
    assert forall|g: Group| #[trigger] crate::stage::group_wf(s1.group(g), s1.uninitialized(g), s1.run_criteria@.len(), s1.settled_criteria()) by {
        assert(crate::stage::group_wf(s0.group(g), s0.uninitialized(g), s0.run_criteria@.len(), s0.settled_criteria()));
        assert(s1.group(g) == s0.group(g) && s1.uninitialized(g) == s0.uninitialized(g));
    }
    assert forall|j: int| 0 <= j < s1.run_criteria@.len() implies crate::stage::labels_consistent(#[trigger] s1.run_criteria@[j]) by {
        if j != i {
            assert(s1.run_criteria@[j] == s0.run_criteria@[j]);
        }
        assert(crate::stage::labels_consistent(s0.run_criteria@[j]));
    }
    assert forall|k: int| 0 <= k < s1.run_criteria@.len() && (#[trigger] s1.run_criteria@[k]).piped implies s1.run_criteria@[k].input < k by {
        if k != i {
            assert(s1.run_criteria@[k] == s0.run_criteria@[k]);
        }
    }
}

impl SystemStage {
    /// Whether every piped run criteria takes its input from one placed before it.
    pub fn pipes_ready(&self) -> (r: bool)
        ensures
            r == pipes_ordered(self.run_criteria@),
    {
        let mut k: usize = 0;
        while k < self.run_criteria.len()
            invariant
                k <= self.run_criteria@.len(),
                forall|j: int| 0 <= j < k && (#[trigger] self.run_criteria@[j]).piped ==> self.run_criteria@[j].input < j,
            decreases self.run_criteria@.len() - k,
        {
            if self.run_criteria[k].piped && self.run_criteria[k].input >= k {
                return false;
            }
            k += 1;
        }
        true
    }
}

impl StageRun {
    /// A new run: the stage's own run criteria is asked first.
    pub fn start() -> (r: (StageRun, RunAction))
        ensures
            r.0 == (StageRun { phase: RunPhase::AskingStage, once: false, default: ShouldRun::Yes, again: false }),
            r.1 == RunAction::AskStageCriteria,
    {
        (StageRun { phase: RunPhase::AskingStage, once: false, default: ShouldRun::Yes, again: false }, RunAction::AskStageCriteria)
    }

    fn start_pass(&mut self, stage: &mut SystemStage) -> (a: RunAction)
        requires
            old(stage).wf(),
            pipes_ordered(old(stage).run_criteria@),
        ensures
            final(stage).wf(),
            pipes_ordered(final(stage).run_criteria@),
            pass_started(*old(self), *old(stage), *final(self), *final(stage), a),
    {
        let default = self.default;
        stage.update_parallel_should_run(default);
        let plan = PassPlan {
            at_start: stage.exclusive_systems_to_run(Group::AtStart, default),
            parallel: stage.parallel_systems_to_run(),
            before_commands: stage.exclusive_systems_to_run(Group::BeforeCommands, default),
            buffers: stage.buffers_to_apply(),
            at_end: stage.exclusive_systems_to_run(Group::AtEnd, default),
        };
        self.phase = RunPhase::Passing;
        self.again = false;
        RunAction::RunPass(plan)
    }

    fn evaluate_from(&mut self, stage: &mut SystemStage, i: usize) -> (a: RunAction)
        requires
            old(stage).wf(),
            pipes_ordered(old(stage).run_criteria@),
            i <= old(stage).run_criteria@.len(),
        ensures
            final(stage).wf(),
            pipes_ordered(final(stage).run_criteria@),
            in_step(*final(self), *final(stage)),
            evaluation_from(*old(self), *old(stage), i as int, *final(self), *final(stage), a),
    {
        if i < stage.run_criteria.len() {
            self.phase = RunPhase::Evaluating(i);
            RunAction::EvaluateCriteria(i, stage.criteria_input(i))
        } else {
            self.start_pass(stage)
        }
    }

    fn end_pass(&mut self, stage: &mut SystemStage) -> (a: RunAction)
        requires
            old(stage).wf(),
            pipes_ordered(old(stage).run_criteria@),
        ensures
            final(stage).wf(),
            pipes_ordered(final(stage).run_criteria@),
            in_step(*final(self), *final(stage)),
            pass_ended(*old(self), *old(stage), *final(self), *final(stage), a),
    {
        self.default = ShouldRun::No;
        if self.again {
            self.start_pass(stage)
        } else if self.once {
            self.phase = RunPhase::Finished;
            RunAction::Finish
        } else {
            self.phase = RunPhase::AskingStage;
            RunAction::AskStageCriteria
        }
    }

    fn reevaluate_from(&mut self, stage: &mut SystemStage, i: usize) -> (a: RunAction)
        requires
            old(stage).wf(),
            pipes_ordered(old(stage).run_criteria@),
            i <= old(stage).run_criteria@.len(),
        ensures
            final(stage).wf(),
            pipes_ordered(final(stage).run_criteria@),
            in_step(*final(self), *final(stage)),
            reevaluation_from(*old(self), *old(stage), i as int, *final(self), *final(stage), a),
    {
        if i >= stage.run_criteria.len() {
            return self.end_pass(stage);
        }
        match stage.run_criteria[i].should_run {
            ShouldRun::No => {
                self.phase = RunPhase::Settling(i);
                RunAction::Continue
            },
            ShouldRun::Yes => {
                stage.record_criteria(i, ShouldRun::No);
                proof {
                    lemma_recorded_keeps_ready(*old(stage), *stage, i as int, ShouldRun::No);
                }
                self.phase = RunPhase::Settling(i);
                RunAction::Continue
            },
            _ => {
                self.phase = RunPhase::Reevaluating(i);
                RunAction::EvaluateCriteria(i, stage.criteria_input(i))
            },
        }
    }

    /// Takes the world's answer to the last action and gives the next one.
    pub fn step(&mut self, stage: &mut SystemStage, event: RunEvent) -> (a: RunAction)
        requires
            old(stage).wf(),
            pipes_ordered(old(stage).run_criteria@),
            in_step(*old(self), *old(stage)),
            expects(old(self).phase, event),
        ensures
            final(stage).wf(),
            pipes_ordered(final(stage).run_criteria@),
            in_step(*final(self), *final(stage)),
            stepped(*old(self), *old(stage), event, *final(self), *final(stage), a),
    {
        match (self.phase, event) {
            (RunPhase::AskingStage, RunEvent::Answer(x)) => match x {
                ShouldRun::No => {
                    self.phase = RunPhase::Finished;
                    RunAction::Finish
                },
                ShouldRun::NoAndCheckAgain => RunAction::AskStageCriteria,
                _ => {
                    self.once = x == ShouldRun::Yes;
                    self.default = ShouldRun::Yes;
                    self.evaluate_from(stage, 0)
                },
            },
            (RunPhase::Evaluating(i), RunEvent::Answer(x)) => {
                let n = stage.run_criteria.len();
                stage.record_criteria(i, x);
                let ghost mid = *stage;
                proof {
                    lemma_recorded_keeps_ready(*old(stage), mid, i as int, x);
                }
                let a = self.evaluate_from(stage, i + 1);
                assert(recorded(*old(stage), mid, i as int, x) && evaluation_from(*old(self), mid, i + 1, *self, *stage, a));
                a
            },
            (RunPhase::Passing, RunEvent::Done) => {
                self.phase = RunPhase::ReadingTick;
                RunAction::ReadChangeTick
            },
            (RunPhase::ReadingTick, RunEvent::ChangeTick(t)) => {
                if stage.change_ticks_due(t) {
                    stage.check_change_ticks(t);
                    proof {
                        let (s0, s1) = (*old(stage), *stage);
                        assert forall|g: Group| #[trigger] crate::stage::group_wf(s1.group(g), s1.uninitialized(g), s1.run_criteria@.len(), s1.settled_criteria()) by {
                            assert(crate::stage::group_wf(s0.group(g), s0.uninitialized(g), s0.run_criteria@.len(), s0.settled_criteria()));
                            assert(s1.group(g) == s0.group(g) && s1.uninitialized(g) == s0.uninitialized(g));
                        }
                    }
                    self.phase = RunPhase::Clamping;
                    RunAction::ClampChangeTicks(t)
                } else {
                    self.reevaluate_from(stage, 0)
                }
            },
            (RunPhase::Clamping, RunEvent::Done) => self.reevaluate_from(stage, 0),
            (RunPhase::Settling(i), RunEvent::Done) => {
                let n = stage.run_criteria.len();
                self.reevaluate_from(stage, i + 1)
            },
            (RunPhase::Reevaluating(i), RunEvent::Answer(x)) => {
                let n = stage.run_criteria.len();
                let again = stage.record_criteria(i, x);
                let ghost mid = *stage;
                proof {
                    lemma_recorded_keeps_ready(*old(stage), mid, i as int, x);
                }
                let ghost r_mid = StageRun { phase: self.phase, once: self.once, default: self.default, again: self.again || x != ShouldRun::No };
                if again {
                    self.again = true;
                }
                assert(*self == r_mid);
                let a = self.reevaluate_from(stage, i + 1);
                assert(recorded(*old(stage), mid, i as int, x) && reevaluation_from(r_mid, mid, i + 1, *self, *stage, a));
                a
            },
            _ => RunAction::Finish,
        }
    }
}

} // verus!
