use vstd::prelude::*;

verus! {

/// The largest age, in ticks, that change detection keeps for a component: three quarters of
/// the `u32` range.
pub const MAX_CHANGE_AGE: u32 = 3221225469u32;

/// How many ticks lie between `tick` and the later tick `now`, counted modulo 2^32.
pub open spec fn tick_delta(now: u32, tick: u32) -> u32 {
    if now >= tick {
        (now - tick) as u32
    } else {
        (now - tick + 0x1_0000_0000) as u32
    }
}

/// The tick `age` ticks before `now`, counted modulo 2^32.
pub open spec fn tick_before(now: u32, age: u32) -> u32 {
    tick_delta(now, age)
}

/// Whether a tick `tick` is newer than the last run `last_run`, both seen from `now`.
pub open spec fn is_newer(tick: u32, last_run: u32, now: u32) -> bool {
    tick_delta(now, tick) < tick_delta(now, last_run)
}

/// The value `check_tick` leaves in a stored tick.
pub open spec fn clamped_tick(tick: u32, now: u32) -> u32 {
    if tick_delta(now, tick) > MAX_CHANGE_AGE {
        tick_before(now, MAX_CHANGE_AGE)
    } else {
        tick
    }
}

pub(crate) fn wrapping_delta(now: u32, tick: u32) -> (d: u32)
    ensures
        d == tick_delta(now, tick),
{
    now.wrapping_sub(tick)
}

/// Clamps a stored tick so that it is never older than `MAX_CHANGE_AGE` ticks as seen from
/// `change_tick`.
pub fn check_tick(last_change_tick: &mut u32, change_tick: u32)
    ensures
        *final(last_change_tick) == clamped_tick(*old(last_change_tick), change_tick),
        tick_delta(change_tick, *final(last_change_tick)) <= MAX_CHANGE_AGE,
{
    let tick_delta = wrapping_delta(change_tick, *last_change_tick);
    if tick_delta > MAX_CHANGE_AGE {
        *last_change_tick = wrapping_delta(change_tick, MAX_CHANGE_AGE);
    }
}

/// The ticks at which a component was added and last changed.
#[derive(Clone, Copy, Debug)]
pub struct ComponentTicks {
    pub added: u32,
    pub changed: u32,
}

impl ComponentTicks {
    /// Whether the component was added after `last_change_tick`, as seen from `change_tick`.
    /// The comparison is relative to `change_tick`, so it works across the whole `u32` range.
    pub fn is_added(&self, last_change_tick: u32, change_tick: u32) -> (r: bool)
        ensures
            r == is_newer(self.added, last_change_tick, change_tick),
    {
        let component_delta = wrapping_delta(change_tick, self.added);
        let system_delta = wrapping_delta(change_tick, last_change_tick);
        component_delta < system_delta
    }

    /// Whether the component changed after `last_change_tick`, as seen from `change_tick`.
    pub fn is_changed(&self, last_change_tick: u32, change_tick: u32) -> (r: bool)
        ensures
            r == is_newer(self.changed, last_change_tick, change_tick),
    {
        let component_delta = wrapping_delta(change_tick, self.changed);
        let system_delta = wrapping_delta(change_tick, last_change_tick);
        component_delta < system_delta
    }

    /// Ticks of a component added (and so changed) at `change_tick`.
    pub fn new(change_tick: u32) -> (t: Self)
        ensures
            t.added == change_tick,
            t.changed == change_tick,
    {
        Self { added: change_tick, changed: change_tick }
    }

    /// Clamps both stored ticks with `check_tick`.
    pub fn check_ticks(&mut self, change_tick: u32)
        ensures
            final(self).added == clamped_tick(old(self).added, change_tick),
            final(self).changed == clamped_tick(old(self).changed, change_tick),
    {
        check_tick(&mut self.added, change_tick);
        check_tick(&mut self.changed, change_tick);
    }

    /// Records a change at `change_tick`.
    pub fn set_changed(&mut self, change_tick: u32)
        ensures
            final(self).changed == change_tick,
            final(self).added == old(self).added,
    {
        self.changed = change_tick;
    }
}

/// A component's ticks together with the two ticks of the system that reads them.
#[derive(Clone, Copy, Debug)]
pub struct ChangeTrackers {
    pub component_ticks: ComponentTicks,
    pub last_change_tick: u32,
    pub change_tick: u32,
}

impl ChangeTrackers {
    /// Whether the component was added since the last run of the reading system.
    pub fn is_added(&self) -> (r: bool)
        ensures
            r == is_newer(self.component_ticks.added, self.last_change_tick, self.change_tick),
    {
        self.component_ticks.is_added(self.last_change_tick, self.change_tick)
    }

    /// Whether the component changed since the last run of the reading system.
    pub fn is_changed(&self) -> (r: bool)
        ensures
            r == is_newer(self.component_ticks.changed, self.last_change_tick, self.change_tick),
    {
        self.component_ticks.is_changed(self.last_change_tick, self.change_tick)
    }
}

/// A component added at tick `now` is seen as added and as changed by a system observing at
/// `now`, exactly when that system did not last run at `now` itself.
pub proof fn lemma_new_ticks_are_fresh(now: u32, last_run: u32)
    ensures
        is_newer(now, last_run, now) <==> last_run != now,
{
}

/// After `set_changed(now)`, a system observing at `now` sees the change exactly when it did
/// not last run at `now`; the added tick is untouched.
pub proof fn lemma_set_changed_is_seen(ticks: ComponentTicks, now: u32, last_run: u32)
    ensures
        ({
            let after = ComponentTicks { added: ticks.added, changed: now };
            is_newer(after.changed, last_run, now) <==> last_run != now
        }),
{
}

/// Clamping a stored tick never alters what a system sees, as long as that system last ran at
/// most `MAX_CHANGE_AGE` ticks ago.
pub proof fn lemma_clamp_keeps_detection(tick: u32, last_run: u32, now: u32)
    requires
        tick_delta(now, last_run) <= MAX_CHANGE_AGE,
    ensures
        is_newer(clamped_tick(tick, now), last_run, now) == is_newer(tick, last_run, now),
        tick_delta(now, clamped_tick(tick, now)) <= MAX_CHANGE_AGE,
{
}

/// Clamping twice is the same as clamping once.
pub proof fn lemma_clamp_idempotent(tick: u32, now: u32)
    ensures
        clamped_tick(clamped_tick(tick, now), now) == clamped_tick(tick, now),
{
}

} // verus!
