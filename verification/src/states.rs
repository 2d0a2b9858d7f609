use vstd::prelude::*;

verus! {

/// The values a state machine can be in. Implementors compare and copy their values exactly.
pub trait States: Sized {
    /// Whether two states are the same.
    fn same_state(&self, other: &Self) -> (r: bool)
        ensures
            r <==> *self == *other,
    ;

    /// A copy of the state.
    fn copy_state(&self) -> (r: Self)
        ensures
            r == *self,
    ;
}

impl States for u64 {
    fn same_state(&self, other: &Self) -> (r: bool) {
        *self == *other
    }

    fn copy_state(&self) -> (r: Self) {
        *self
    }
}

/// A state that can be matched against: here, one exact state.
#[derive(Debug)]
pub enum MatchedState<S> {
    /// Only this state is matched.
    Exact(S),
}

impl<S: States> MatchedState<S> {
    pub open spec fn spec_matches(&self, state: S) -> bool {
        match self {
            MatchedState::Exact(s) => *s == state,
        }
    }

    /// Whether `state` matches.
    pub fn matches(&self, state: &S) -> (r: bool)
        ensures
            r == self.spec_matches(*state),
    {
        match self {
            MatchedState::Exact(s) => s.same_state(state),
        }
    }
}

/// The label of the schedule that runs when the state machine enters a matching state.
#[derive(Debug)]
pub struct OnEnter<S>(pub MatchedState<S>);

/// The label of the schedule that runs when the state machine exits a matching state.
#[derive(Debug)]
pub struct OnExit<S>(pub MatchedState<S>);

/// The label of the schedule that runs when the state machine exits a state matching `from`
/// and enters one matching `to`.
#[derive(Debug)]
pub struct OnTransition<S> {
    pub from: MatchedState<S>,
    pub to: MatchedState<S>,
}

impl<S: States> OnEnter<S> {
    /// The schedule that runs on entering `state`.
    pub fn exact(state: S) -> (r: Self)
        ensures
            r.0 == MatchedState::Exact(state),
    {
        OnEnter(MatchedState::Exact(state))
    }

    /// Whether entering `new_state` runs this schedule.
    pub fn matches(&self, new_state: &S) -> (r: bool)
        ensures
            r == self.0.spec_matches(*new_state),
    {
        self.0.matches(new_state)
    }
}

impl<S: States> OnExit<S> {
    /// The schedule that runs on leaving `state`.
    pub fn exact(state: S) -> (r: Self)
        ensures
            r.0 == MatchedState::Exact(state),
    {
        OnExit(MatchedState::Exact(state))
    }

    /// Whether leaving `old_state` runs this schedule.
    pub fn matches(&self, old_state: &S) -> (r: bool)
        ensures
            r == self.0.spec_matches(*old_state),
    {
        self.0.matches(old_state)
    }
}

impl<S: States> OnTransition<S> {
    /// The schedule that runs on leaving `old_state` for `new_state`.
    pub fn exact(old_state: S, new_state: S) -> (r: Self)
        ensures
            r.from == MatchedState::Exact(old_state),
            r.to == MatchedState::Exact(new_state),
    {
        OnTransition { from: MatchedState::Exact(old_state), to: MatchedState::Exact(new_state) }
    }

    /// Whether leaving `old_state` for `new_state` runs this schedule.
    pub fn matches(&self, old_state: &S, new_state: &S) -> (r: bool)
        ensures
            r == (self.from.spec_matches(*old_state) && self.to.spec_matches(*new_state)),
    {
        self.from.matches(old_state) && self.to.matches(new_state)
    }
}

/// The current state of a state machine.
#[derive(Debug)]
pub struct State<S>(pub S);

impl<S: States> State<S> {
    /// A state machine in `state`.
    pub fn new(state: S) -> (r: Self)
        ensures
            r.0 == state,
    {
        State(state)
    }

    /// The current state.
    pub fn get(&self) -> (r: &S)
        ensures
            *r == self.0,
    {
        &self.0
    }
}

/// The state a state machine moves to at the next transition, if one is queued.
#[derive(Debug)]
pub struct NextState<S>(pub Option<S>);

impl<S: States> NextState<S> {
    /// Queues a transition to `state`, replacing any queued before.
    pub fn set(&mut self, state: S)
        ensures
            final(self).0 == Some(state),
    {
        self.0 = Some(state);
    }
}

/// The schedules a transition runs, in order: exit, transition, enter.
#[derive(Debug)]
pub struct Transition<S> {
    pub on_exit: OnExit<S>,
    pub on_transition: OnTransition<S>,
    pub on_enter: OnEnter<S>,
}

/// What applying a queued transition did.
#[derive(Debug)]
pub struct TransitionOutcome<S> {
    /// A transition was queued, so the queue is marked as changed.
    pub next_changed: bool,
    /// The schedules to run, when the state changed.
    pub transition: Option<Transition<S>>,
}

/// Whether `t` holds the schedules of leaving `exited` for `entered`.
pub open spec fn transition_of<S>(t: Transition<S>, exited: S, entered: S) -> bool {
    &&& t.on_exit.0 == MatchedState::Exact(exited)
    &&& t.on_transition.from == MatchedState::Exact(exited)
    &&& t.on_transition.to == MatchedState::Exact(entered)
    &&& t.on_enter.0 == MatchedState::Exact(entered)
}

/// The schedule to run for the current state when the state machine starts.
pub fn run_enter_schedule<S: States>(state: &State<S>) -> (r: OnEnter<S>)
    ensures
        r.0 == MatchedState::Exact(state.0),
{
    OnEnter::exact(state.0.copy_state())
}

/// Applies the queued transition, if any: takes it from the queue and, when it names a state
/// other than the current one, moves to it and returns the exit, transition and enter schedules
/// to run, in that order.
pub fn apply_state_transition<S: States>(state: &mut State<S>, next: &mut NextState<S>) -> (r: TransitionOutcome<S>)
    ensures
        final(next).0 is None,
        r.next_changed == old(next).0 is Some,
        match old(next).0 {
            None => r.transition is None && final(state).0 == old(state).0,
            Some(entered) => if entered == old(state).0 {
                r.transition is None && final(state).0 == old(state).0
            } else {
                &&& final(state).0 == entered
                &&& r.transition matches Some(t) && transition_of(t, old(state).0, entered)
            },
        },
{
    let mut taken: Option<S> = None;
    std::mem::swap(&mut taken, &mut next.0);
    match taken {
        None => TransitionOutcome { next_changed: false, transition: None },
        Some(entered) => {
            if state.0.same_state(&entered) {
                TransitionOutcome { next_changed: true, transition: None }
            } else {
                let exited = state.0.copy_state();
                let exited2 = state.0.copy_state();
                let entered2 = entered.copy_state();
                let entered3 = entered.copy_state();
                state.0 = entered;
                let t = Transition {
                    on_exit: OnExit::exact(exited),
                    on_transition: OnTransition::exact(exited2, entered2),
                    on_enter: OnEnter::exact(entered3),
                };
                TransitionOutcome { next_changed: true, transition: Some(t) }
            }
        },
    }
}

/// A queued transition is applied once: applying again without queuing another changes nothing
/// and runs no schedule.
pub proof fn law_transition_applies_once<S: States>(
    s0: State<S>,
    n0: NextState<S>,
    s1: State<S>,
    n1: NextState<S>,
    r1: TransitionOutcome<S>,
    s2: State<S>,
    n2: NextState<S>,
    r2: TransitionOutcome<S>,
)
    requires
        n1.0 is None,
        r1.next_changed == n0.0 is Some,
        match n0.0 {
            None => r1.transition is None && s1.0 == s0.0,
            Some(entered) => if entered == s0.0 {
                r1.transition is None && s1.0 == s0.0
            } else {
                &&& s1.0 == entered
                &&& r1.transition matches Some(t) && transition_of(t, s0.0, entered)
            },
        },
        n2.0 is None,
        r2.next_changed == n1.0 is Some,
        match n1.0 {
            None => r2.transition is None && s2.0 == s1.0,
            Some(entered) => if entered == s1.0 {
                r2.transition is None && s2.0 == s1.0
            } else {
                &&& s2.0 == entered
                &&& r2.transition matches Some(t) && transition_of(t, s1.0, entered)
            },
        },
    ensures
        !r2.next_changed,
        r2.transition is None,
        s2.0 == s1.0,
{
}

} // verus!
