use vstd::prelude::*;
use crate::entity::Entity;
use crate::keymap::KeyMap;
use crate::error::ErrorHandler;

verus! {

/// The id of a component, or of an event kind.
pub type ComponentId = usize;

/// The event of a component being added.
pub const ADD: ComponentId = 0usize;
/// The event of a component being inserted (added or replaced).
pub const INSERT: ComponentId = 1usize;
/// The event of a component value being replaced.
pub const REPLACE: ComponentId = 2usize;
/// The event of a component being removed.
pub const REMOVE: ComponentId = 3usize;
/// The event of an entity being despawned.
pub const DESPAWN: ComponentId = 4usize;

/// Identifies the function that runs an observer when it is triggered.
#[derive(Debug, Clone, Copy, PartialEq, Eq, Structural)]
pub struct ObserverRunner(pub u64);

/// An observer: the system it runs (by name), the runner that runs it, the error handler for
/// what it returns, and the last trigger it ran for.
#[derive(Debug, Clone)]
pub struct Observer {
    pub error_handler: Option<ErrorHandler>,
    pub system_name: String,
    pub last_trigger_id: u32,
    pub runner: ObserverRunner,
}

/// The system an observer is made from: its name, and whether it takes the world exclusively.
#[derive(Debug, Clone)]
pub struct ObserverSystem {
    pub name: String,
    pub exclusive: bool,
}

impl Observer {
    /// An observer running `system` through `runner`, with the default error handler. An
    /// exclusive system may not be used as an observer.
    pub fn new(system: ObserverSystem, runner: ObserverRunner) -> (o: Self)
        requires
            !system.exclusive,
        ensures
            o.error_handler is None,
            o.system_name@ == system.name@,
            o.last_trigger_id == 0,
            o.runner == runner,
    {
        Observer { error_handler: None, system_name: system.name, last_trigger_id: 0, runner }
    }

    /// An observer with a custom runner and an empty system, for dynamic events.
    pub fn with_dynamic_runner(runner: ObserverRunner) -> (o: Self)
        ensures
            o.error_handler is None,
            o.system_name@ == Seq::<char>::empty(),
            o.last_trigger_id == 0,
            o.runner == runner,
    {
        Observer { error_handler: None, system_name: String::new(), last_trigger_id: 0, runner }
    }

    /// Sets the error handler for what the observer's system returns.
    pub fn with_error_handler(self, error_handler: ErrorHandler) -> (o: Self)
        ensures
            o.error_handler == Some(error_handler),
            o.system_name == self.system_name,
            o.last_trigger_id == self.last_trigger_id,
            o.runner == self.runner,
    {
        let mut o = self;
        o.error_handler = Some(error_handler);
        o
    }

    /// The name of the observer's system.
    pub fn system_name(&self) -> (n: &String)
        ensures
            *n == self.system_name,
    {
        &self.system_name
    }
}

/// What an observer watches: the events it listens to, and optionally the components and
/// entities it is restricted to. With no entities it is a universal observer.
#[derive(Debug, Clone)]
pub struct ObserverDescriptor {
    pub events: Vec<ComponentId>,
    pub components: Vec<ComponentId>,
    pub entities: Vec<Entity>,
}

impl ObserverDescriptor {
    /// Watches nothing yet.
    pub fn universal() -> (d: Self)
        ensures
            d.events@ == Seq::<ComponentId>::empty(),
            d.components@ == Seq::<ComponentId>::empty(),
            d.entities@ == Seq::<Entity>::empty(),
    {
        ObserverDescriptor { events: Vec::new(), components: Vec::new(), entities: Vec::new() }
    }

    /// Watches the event `event`.
    pub fn from_event(event: ComponentId) -> (d: Self)
        ensures
            d.events@ == seq![event],
            d.components@ == Seq::<ComponentId>::empty(),
            d.entities@ == Seq::<Entity>::empty(),
    {
        let mut events = Vec::new();
        events.push(event);
        ObserverDescriptor { events, components: Vec::new(), entities: Vec::new() }
    }

    /// Watches the component `component`.
    pub fn from_component(component: ComponentId) -> (d: Self)
        ensures
            d.events@ == Seq::<ComponentId>::empty(),
            d.components@ == seq![component],
            d.entities@ == Seq::<Entity>::empty(),
    {
        let mut components = Vec::new();
        components.push(component);
        ObserverDescriptor { events: Vec::new(), components, entities: Vec::new() }
    }

    /// Watches the entity `entity`.
    pub fn from_entity(entity: Entity) -> (d: Self)
        ensures
            d.events@ == Seq::<ComponentId>::empty(),
            d.components@ == Seq::<ComponentId>::empty(),
            d.entities@ == seq![entity],
    {
        let mut entities = Vec::new();
        entities.push(entity);
        ObserverDescriptor { events: Vec::new(), components: Vec::new(), entities }
    }

    pub fn watch_event(&mut self, event: ComponentId)
        ensures
            final(self).events@ == old(self).events@.push(event),
            final(self).components@ == old(self).components@,
            final(self).entities@ == old(self).entities@,
    {
        self.events.push(event);
    }

    pub fn set_events(self, events: Vec<ComponentId>) -> (d: Self)
        ensures
            d.events@ == events@,
            d.components@ == self.components@,
            d.entities@ == self.entities@,
    {
        ObserverDescriptor { events, components: self.components, entities: self.entities }
    }

    pub fn watch_component(&mut self, component: ComponentId)
        ensures
            final(self).components@ == old(self).components@.push(component),
            final(self).events@ == old(self).events@,
            final(self).entities@ == old(self).entities@,
    {
        self.components.push(component);
    }

    pub fn set_components(self, components: Vec<ComponentId>) -> (d: Self)
        ensures
            d.components@ == components@,
            d.events@ == self.events@,
            d.entities@ == self.entities@,
    {
        ObserverDescriptor { events: self.events, components, entities: self.entities }
    }

    pub fn watch_entity(&mut self, entity: Entity)
        ensures
            final(self).entities@ == old(self).entities@.push(entity),
            final(self).events@ == old(self).events@,
            final(self).components@ == old(self).components@,
    {
        self.entities.push(entity);
    }

    pub fn set_entities(self, entities: Vec<Entity>) -> (d: Self)
        ensures
            d.entities@ == entities@,
            d.events@ == self.events@,
            d.components@ == self.components@,
    {
        ObserverDescriptor { events: self.events, components: self.components, entities }
    }

    /// Whether the observer watches no specific entity.
    pub fn is_universal(&self) -> (b: bool)
        ensures
            b == (self.entities@.len() == 0),
    {
        self.entities.len() == 0
    }

    pub fn events(&self) -> (s: &[ComponentId])
        ensures
            s@ == self.events@,
    {
        self.events.as_slice()
    }

    pub fn components(&self) -> (s: &[ComponentId])
        ensures
            s@ == self.components@,
    {
        self.components.as_slice()
    }

    pub fn entities(&self) -> (s: &[Entity])
        ensures
            s@ == self.entities@,
    {
        self.entities.as_slice()
    }

    /// The keys of the watched components.
    pub open spec fn component_keys(&self) -> Seq<u64> {
        self.components@.map_values(|c: ComponentId| c as u64)
    }

    /// The packed keys of the watched entities.
    pub open spec fn entity_keys(&self) -> Seq<u64> {
        self.entities@.map_values(|e: Entity| e.spec_bits())
    }
}

/// The single entity a bespoke observer watches.
#[derive(Debug, Clone, Copy, PartialEq, Eq, Structural)]
pub struct ObserverOf(pub Entity);

impl ObserverOf {
    /// The value used before a real target is known.
    pub fn from_world() -> (o: Self)
        ensures
            o.0.index == u32::MAX,
            o.0.generation == 0,
    {
        ObserverOf(Entity::placeholder())
    }
}

/// The observers watching an entity.
#[derive(Debug, Clone)]
pub struct ObservedBy(pub Vec<Entity>);

impl ObservedBy {
    pub fn get(&self) -> (s: &[Entity])
        ensures
            s@ == self.0@,
    {
        self.0.as_slice()
    }
}

/// A scope an observer can be registered in for one event.
pub enum Scope {
    Universal,
    Entity(u64),
    Component(u64),
    ComponentEntity(u64, u64),
}

pub open spec fn opt_get(m: Map<u64, ObserverRunner>, k: u64) -> Option<ObserverRunner> {
    if m.contains_key(k) {
        Some(m[k])
    } else {
        None
    }
}

pub open spec fn nested_get(m: Map<u64, KeyMap<ObserverRunner>>, a: u64, o: u64) -> Option<ObserverRunner> {
    if m.contains_key(a) {
        opt_get(m[a]@, o)
    } else {
        None
    }
}

pub open spec fn nested_wf(m: KeyMap<KeyMap<ObserverRunner>>) -> bool {
    &&& m.wf()
    &&& forall|a: u64| #[trigger] m@.contains_key(a) ==> m@[a].wf()
}

pub open spec fn nested_entries(m: KeyMap<KeyMap<ObserverRunner>>, a: u64) -> Seq<(u64, ObserverRunner)> {
    if m@.contains_key(a) {
        m@[a].entries()
    } else {
        Seq::empty()
    }
}

proof fn lemma_take_succ_contains(s: Seq<u64>, i: int, x: u64)
    requires
        0 <= i < s.len(),
    ensures
        s.take(i + 1).contains(x) == (s.take(i).contains(x) || x == s[i]),
{
    assert(s.take(i + 1) =~= s.take(i).push(s[i]));
    vstd::seq_lib::lemma_seq_contains_after_push(s.take(i), s[i], x);
}

/// Sets (`a`, `o`) to `r` in a two-level map.
fn nested_insert(m: &mut KeyMap<KeyMap<ObserverRunner>>, a: u64, o: u64, r: ObserverRunner)
    requires
        nested_wf(*old(m)),
    ensures
        nested_wf(*final(m)),
        forall|a2: u64, o2: u64| #[trigger] nested_get(final(m)@, a2, o2) == if a2 == a && o2 == o {
            Some(r)
        } else {
            nested_get(old(m)@, a2, o2)
        },
{
    let mut inner = match m.remove(a) {
        Some(i) => i,
        None => KeyMap::new(),
    };
    inner.insert(o, r);
    m.insert(a, inner);
}

/// Clears (`a`, `o`) in a two-level map, touching nothing when `a` has no entry.
fn nested_remove(m: &mut KeyMap<KeyMap<ObserverRunner>>, a: u64, o: u64)
    requires
        nested_wf(*old(m)),
    ensures
        nested_wf(*final(m)),
        forall|a2: u64, o2: u64| #[trigger] nested_get(final(m)@, a2, o2) == if a2 == a && o2 == o {
            None
        } else {
            nested_get(old(m)@, a2, o2)
        },
{
    if let Some(mut inner) = m.remove(a) {
        inner.remove(o);
        m.insert(a, inner);
    } else {
        assert forall|a2: u64, o2: u64| #[trigger] nested_get(m@, a2, o2) == if a2 == a && o2 == o {
            None
        } else {
            nested_get(old(m)@, a2, o2)
        } by {}
    }
}

/// Appends the entries of `m` to `out`, as (entity, runner) pairs.
fn append_entries(out: &mut Vec<(Entity, ObserverRunner)>, m: &KeyMap<ObserverRunner>)
    ensures
        final(out)@.map_values(|p: (Entity, ObserverRunner)| (p.0.spec_bits(), p.1)) == old(out)@.map_values(|p: (Entity, ObserverRunner)| (p.0.spec_bits(), p.1)) + m.entries(),
{
    let n = m.len();
    let mut i: usize = 0;
    while i < n
        invariant
            n == m.entries().len(),
            i <= n,
            out@.map_values(|p: (Entity, ObserverRunner)| (p.0.spec_bits(), p.1)) == old(out)@.map_values(|p: (Entity, ObserverRunner)| (p.0.spec_bits(), p.1)) + m.entries().take(i as int),
        decreases n - i,
    {
        let (k, r) = m.entry_at(i);
        let ghost before = out@;
        let e = Entity::from_bits(k);
        out.push((e, *r));
        proof {
            assert(out@ == before.push((e, *r)));
            assert(m.entries().take(i + 1) =~= m.entries().take(i as int).push(m.entries()[i as int]));
            assert(out@.map_values(|p: (Entity, ObserverRunner)| (p.0.spec_bits(), p.1)) =~= before.map_values(|p: (Entity, ObserverRunner)| (p.0.spec_bits(), p.1)).push((e.spec_bits(), *r)));
        }
        i += 1;
    }
    assert(m.entries().take(n as int) =~= m.entries());
}

/// Observers of one event that target one component.
pub struct CachedComponentObservers {
    pub universal_observers: KeyMap<ObserverRunner>,
    pub entity_component_observers: KeyMap<KeyMap<ObserverRunner>>,
}

impl CachedComponentObservers {
    pub open spec fn wf(&self) -> bool {
        &&& self.universal_observers.wf()
        &&& nested_wf(self.entity_component_observers)
    }

    pub fn new() -> (c: Self)
        ensures
            c.wf(),
            c.universal_observers@ == Map::<u64, ObserverRunner>::empty(),
            c.entity_component_observers@ == Map::<u64, KeyMap<ObserverRunner>>::empty(),
    {
        CachedComponentObservers { universal_observers: KeyMap::new(), entity_component_observers: KeyMap::new() }
    }

    /// The observers of this component on any entity.
    pub fn global_observers(&self) -> (m: &KeyMap<ObserverRunner>)
        ensures
            *m == self.universal_observers,
    {
        &self.universal_observers
    }

    /// The observers of this component on specific entities, by entity.
    pub fn entity_component_observers(&self) -> (m: &KeyMap<KeyMap<ObserverRunner>>)
        ensures
            *m == self.entity_component_observers,
    {
        &self.entity_component_observers
    }
}

/// Observers of one event, split by what they target.
pub struct CachedObservers {
    pub universal_observers: KeyMap<ObserverRunner>,
    pub component_observers: KeyMap<CachedComponentObservers>,
    pub entity_observers: KeyMap<KeyMap<ObserverRunner>>,
}

/// Whether registering a descriptor with these component and entity keys covers `s`.
pub open spec fn covers(comps: Seq<u64>, ents: Seq<u64>, s: Scope) -> bool {
    if ents.len() == 0 {
        match s {
            Scope::Universal => true,
            Scope::Component(c) => comps.contains(c),
            _ => false,
        }
    } else {
        match s {
            Scope::Entity(e) => ents.contains(e),
            Scope::ComponentEntity(c, e) => comps.contains(c) && ents.contains(e),
            _ => false,
        }
    }
}

impl CachedObservers {
    pub open spec fn wf(&self) -> bool {
        &&& self.universal_observers.wf()
        &&& self.component_observers.wf()
        &&& forall|c: u64| #[trigger] self.component_observers@.contains_key(c) ==> self.component_observers@[c].wf()
        &&& nested_wf(self.entity_observers)
    }

    /// The runner registered for observer `o` in scope `s`, if any.
    pub open spec fn runner_at(&self, s: Scope, o: u64) -> Option<ObserverRunner> {
        match s {
            Scope::Universal => opt_get(self.universal_observers@, o),
            Scope::Entity(e) => nested_get(self.entity_observers@, e, o),
            Scope::Component(c) => if self.component_observers@.contains_key(c) {
                opt_get(self.component_observers@[c].universal_observers@, o)
            } else {
                None
            },
            Scope::ComponentEntity(c, e) => if self.component_observers@.contains_key(c) {
                nested_get(self.component_observers@[c].entity_component_observers@, e, o)
            } else {
                None
            },
        }
    }

    pub fn new() -> (c: Self)
        ensures
            c.wf(),
            forall|s: Scope, o: u64| #[trigger] c.runner_at(s, o) is None,
    {
        CachedObservers {
            universal_observers: KeyMap::new(),
            component_observers: KeyMap::new(),
            entity_observers: KeyMap::new(),
        }
    }

    /// The observers of this event regardless of target.
    pub fn universal_observers(&self) -> (m: &KeyMap<ObserverRunner>)
        ensures
            *m == self.universal_observers,
    {
        &self.universal_observers
    }

    /// The observers of this event targeting components, by component.
    pub fn get_component_observers(&self) -> (m: &KeyMap<CachedComponentObservers>)
        ensures
            *m == self.component_observers,
    {
        &self.component_observers
    }

    /// The observers of this event targeting entities, by entity.
    pub fn entity_observers(&self) -> (m: &KeyMap<KeyMap<ObserverRunner>>)
        ensures
            *m == self.entity_observers,
    {
        &self.entity_observers
    }

    fn take_component(&mut self, c: u64) -> (cco: CachedComponentObservers)
        requires
            old(self).wf(),
        ensures
            cco.wf(),
            final(self).universal_observers == old(self).universal_observers,
            final(self).entity_observers == old(self).entity_observers,
            final(self).component_observers.wf(),
            final(self).component_observers@ == old(self).component_observers@.remove(c),
            old(self).component_observers@.contains_key(c) ==> cco == old(self).component_observers@[c],
            !old(self).component_observers@.contains_key(c) ==> cco.universal_observers@ == Map::<u64, ObserverRunner>::empty() && cco.entity_component_observers@ == Map::<u64, KeyMap<ObserverRunner>>::empty(),
    {
        match self.component_observers.remove(c) {
            Some(cco) => cco,
            None => CachedComponentObservers::new(),
        }
    }

    /// Sets or clears observer `o` in scope `Component(c)`.
    fn set_component_universal(&mut self, c: u64, o: u64, r: Option<ObserverRunner>)
        requires
            old(self).wf(),
        ensures
            final(self).wf(),
            forall|s: Scope, o2: u64| #[trigger] final(self).runner_at(s, o2) == if o2 == o && s == Scope::Component(c) {
                r
            } else {
                old(self).runner_at(s, o2)
            },
    {
        if r.is_none() && !self.component_observers.contains_key(c) {
            return;
        }
        let mut cco = self.take_component(c);
        match r {
            Some(rr) => cco.universal_observers.insert(o, rr),
            None => {
                cco.universal_observers.remove(o);
            },
        }
        self.component_observers.insert(c, cco);
        assert forall|s: Scope, o2: u64| #[trigger] self.runner_at(s, o2) == if o2 == o && s == Scope::Component(c) {
            r
        } else {
            old(self).runner_at(s, o2)
        } by {}
    }

    /// Sets or clears observer `o` in scope `ComponentEntity(c, e)`.
    fn set_component_entity(&mut self, c: u64, e: u64, o: u64, r: Option<ObserverRunner>)
        requires
            old(self).wf(),
        ensures
            final(self).wf(),
            forall|s: Scope, o2: u64| #[trigger] final(self).runner_at(s, o2) == if o2 == o && s == Scope::ComponentEntity(c, e) {
                r
            } else {
                old(self).runner_at(s, o2)
            },
    {
        if r.is_none() && !self.component_observers.contains_key(c) {
            return;
        }
        let mut cco = self.take_component(c);
        match r {
            Some(rr) => nested_insert(&mut cco.entity_component_observers, e, o, rr),
            None => nested_remove(&mut cco.entity_component_observers, e, o),
        }
        self.component_observers.insert(c, cco);
        assert forall|s: Scope, o2: u64| #[trigger] self.runner_at(s, o2) == if o2 == o && s == Scope::ComponentEntity(c, e) {
            r
        } else {
            old(self).runner_at(s, o2)
        } by {}
    }

    /// Sets or clears observer `o` in every scope that a descriptor with these components and
    /// entities covers.
    fn set_covered(&mut self, o: u64, r: Option<ObserverRunner>, descriptor: &ObserverDescriptor)
        requires
            old(self).wf(),
        ensures
            final(self).wf(),
            forall|s: Scope, o2: u64| #[trigger] final(self).runner_at(s, o2) == if o2 == o && covers(descriptor.component_keys(), descriptor.entity_keys(), s) {
                r
            } else {
                old(self).runner_at(s, o2)
            },
    {
        broadcast use vstd::seq_lib::lemma_seq_contains_after_push;
        let ghost comps = descriptor.component_keys();
        let ghost ents = descriptor.entity_keys();
        let nc = descriptor.components.len();
        let ne = descriptor.entities.len();
        if descriptor.is_universal() {
            match r {
                Some(rr) => self.universal_observers.insert(o, rr),
                None => {
                    self.universal_observers.remove(o);
                },
            }
            let mut i: usize = 0;
            while i < nc
                invariant
                    self.wf(),
                    nc == descriptor.components@.len(),
                    ne == 0,
                    comps == descriptor.component_keys(),
                    ents == descriptor.entity_keys(),
                    i <= nc,
                    forall|s: Scope, o2: u64| #[trigger] self.runner_at(s, o2) == if o2 == o && (s == Scope::Universal || (s is Component && comps.take(i as int).contains(s->Component_0))) {
                        r
                    } else {
                        old(self).runner_at(s, o2)
                    },
                decreases nc - i,
            {
                let c = descriptor.components[i] as u64;
                let ghost prev = *self;
                self.set_component_universal(c, o, r);
                proof {
                    assert(comps.take(i + 1) =~= comps.take(i as int).push(c));
                    assert forall|s: Scope, o2: u64| #[trigger] self.runner_at(s, o2) == if o2 == o && (s == Scope::Universal || (s is Component && comps.take(i + 1).contains(s->Component_0))) {
                        r
                    } else {
                        old(self).runner_at(s, o2)
                    } by {
                        assert(self.runner_at(s, o2) == if o2 == o && s == Scope::Component(c) { r } else { prev.runner_at(s, o2) });
                        assert(prev.runner_at(s, o2) == if o2 == o && (s == Scope::Universal || (s is Component && comps.take(i as int).contains(s->Component_0))) {
                            r
                        } else {
                            old(self).runner_at(s, o2)
                        });
                        if s is Component {
                            lemma_take_succ_contains(comps, i as int, s->Component_0);
                        }
                    }
                }
                i += 1;
            }
            assert(comps.take(nc as int) =~= comps);
        } else {
            let mut i: usize = 0;
            while i < ne
                invariant
                    self.wf(),
                    ne == descriptor.entities@.len(),
                    ne > 0,
                    ents == descriptor.entity_keys(),
                    i <= ne,
                    forall|s: Scope, o2: u64| #[trigger] self.runner_at(s, o2) == if o2 == o && s is Entity && ents.take(i as int).contains(s->Entity_0) {
                        r
                    } else {
                        old(self).runner_at(s, o2)
                    },
                decreases ne - i,
            {
                let e = descriptor.entities[i].to_bits();
                let ghost prev = *self;
                match r {
                    Some(rr) => nested_insert(&mut self.entity_observers, e, o, rr),
                    None => nested_remove(&mut self.entity_observers, e, o),
                }
                proof {
                    assert(ents.take(i + 1) =~= ents.take(i as int).push(e));
                    assert forall|s: Scope, o2: u64| #[trigger] self.runner_at(s, o2) == if o2 == o && s is Entity && ents.take(i + 1).contains(s->Entity_0) {
                        r
                    } else {
                        old(self).runner_at(s, o2)
                    } by {
                        assert(prev.runner_at(s, o2) == if o2 == o && s is Entity && ents.take(i as int).contains(s->Entity_0) {
                            r
                        } else {
                            old(self).runner_at(s, o2)
                        });
                        if s is Entity {
                            let e2 = s->Entity_0;
                            assert(nested_get(self.entity_observers@, e2, o2) == if e2 == e && o2 == o { r } else { nested_get(prev.entity_observers@, e2, o2) });
                            lemma_take_succ_contains(ents, i as int, e2);
                        }
                    }
                }
                i += 1;
            }
            assert(ents.take(ne as int) =~= ents);
            let ghost mid = *self;
            let mut ci: usize = 0;
            while ci < nc
                invariant
                    self.wf(),
                    nc == descriptor.components@.len(),
                    ne == descriptor.entities@.len(),
                    comps == descriptor.component_keys(),
                    ents == descriptor.entity_keys(),
                    ne > 0,
                    ci <= nc,
                    forall|s: Scope, o2: u64| #[trigger] self.runner_at(s, o2) == if o2 == o && s is ComponentEntity && comps.take(ci as int).contains(s->ComponentEntity_0) && ents.contains(s->ComponentEntity_1) {
                        r
                    } else {
                        mid.runner_at(s, o2)
                    },
                decreases nc - ci,
            {
                let c = descriptor.components[ci] as u64;
                let ghost before_c = *self;
                let mut ei: usize = 0;
                while ei < ne
                    invariant
                        self.wf(),
                        ne == descriptor.entities@.len(),
                        ents == descriptor.entity_keys(),
                        ei <= ne,
                        forall|s: Scope, o2: u64| #[trigger] self.runner_at(s, o2) == if o2 == o && s is ComponentEntity && s->ComponentEntity_0 == c && ents.take(ei as int).contains(s->ComponentEntity_1) {
                            r
                        } else {
                            before_c.runner_at(s, o2)
                        },
                    decreases ne - ei,
                {
                    let e = descriptor.entities[ei].to_bits();
                    let ghost prev = *self;
                    self.set_component_entity(c, e, o, r);
                    proof {
                        assert(ents.take(ei + 1) =~= ents.take(ei as int).push(e));
                        assert forall|s: Scope, o2: u64| #[trigger] self.runner_at(s, o2) == if o2 == o && s is ComponentEntity && s->ComponentEntity_0 == c && ents.take(ei + 1).contains(s->ComponentEntity_1) {
                            r
                        } else {
                            before_c.runner_at(s, o2)
                        } by {
                            assert(self.runner_at(s, o2) == if o2 == o && s == Scope::ComponentEntity(c, e) { r } else { prev.runner_at(s, o2) });
                            assert(prev.runner_at(s, o2) == if o2 == o && s is ComponentEntity && s->ComponentEntity_0 == c && ents.take(ei as int).contains(s->ComponentEntity_1) {
                                r
                            } else {
                                before_c.runner_at(s, o2)
                            });
                            if s is ComponentEntity {
                                lemma_take_succ_contains(ents, ei as int, s->ComponentEntity_1);
                            }
                        }
                    }
                    ei += 1;
                }
                proof {
                    assert(ents.take(ne as int) =~= ents);
                    assert(comps.take(ci + 1) =~= comps.take(ci as int).push(c));
                    assert forall|s: Scope, o2: u64| #[trigger] self.runner_at(s, o2) == if o2 == o && s is ComponentEntity && comps.take(ci + 1).contains(s->ComponentEntity_0) && ents.contains(s->ComponentEntity_1) {
                        r
                    } else {
                        mid.runner_at(s, o2)
                    } by {
                        assert(self.runner_at(s, o2) == if o2 == o && s is ComponentEntity && s->ComponentEntity_0 == c && ents.take(ne as int).contains(s->ComponentEntity_1) {
                            r
                        } else {
                            before_c.runner_at(s, o2)
                        });
                        assert(before_c.runner_at(s, o2) == if o2 == o && s is ComponentEntity && comps.take(ci as int).contains(s->ComponentEntity_0) && ents.contains(s->ComponentEntity_1) {
                            r
                        } else {
                            mid.runner_at(s, o2)
                        });
                        if s is ComponentEntity {
                            lemma_take_succ_contains(comps, ci as int, s->ComponentEntity_0);
                        }
                    }
                }
                ci += 1;
            }
            assert(comps.take(nc as int) =~= comps);
        }
    }

    /// Registers observer `observer` for this event, in every scope its descriptor covers.
    pub fn register_observer(&mut self, observer: Entity, runner: ObserverRunner, descriptor: &ObserverDescriptor)
        requires
            old(self).wf(),
        ensures
            final(self).wf(),
            forall|s: Scope, o2: u64| #[trigger] final(self).runner_at(s, o2) == if o2 == observer.spec_bits() && covers(descriptor.component_keys(), descriptor.entity_keys(), s) {
                Some(runner)
            } else {
                old(self).runner_at(s, o2)
            },
    {
        self.set_covered(observer.to_bits(), Some(runner), descriptor);
    }

    /// Unregisters observer `observer` from every scope its descriptor covers.
    pub fn unregister_observer(&mut self, observer: Entity, descriptor: &ObserverDescriptor)
        requires
            old(self).wf(),
        ensures
            final(self).wf(),
            forall|s: Scope, o2: u64| #[trigger] final(self).runner_at(s, o2) == if o2 == observer.spec_bits() && covers(descriptor.component_keys(), descriptor.entity_keys(), s) {
                None
            } else {
                old(self).runner_at(s, o2)
            },
    {
        self.set_covered(observer.to_bits(), None, descriptor);
    }

    /// The observers to run, in order, when this event is triggered at `target` for the
    /// components `comps`: the universal ones, then those of the target entity, then, for each
    /// component, its universal ones and those of the target entity.
    pub open spec fn triggered(&self, target: Option<u64>, comps: Seq<u64>) -> Seq<(u64, ObserverRunner)> {
        self.universal_observers.entries() + match target {
            Some(t) => nested_entries(self.entity_observers, t),
            None => Seq::empty(),
        } + self.component_part(target, comps)
    }

    pub open spec fn component_part(&self, target: Option<u64>, comps: Seq<u64>) -> Seq<(u64, ObserverRunner)>
        decreases comps.len(),
    {
        if comps.len() == 0 {
            Seq::empty()
        } else {
            let c = comps.last();
            self.component_part(target, comps.drop_last()) + if self.component_observers@.contains_key(c) {
                let cco = self.component_observers@[c];
                cco.universal_observers.entries() + match target {
                    Some(t) => nested_entries(cco.entity_component_observers, t),
                    None => Seq::empty(),
                }
            } else {
                Seq::empty()
            }
        }
    }

    /// Lists the observers to run when this event is triggered at `target` for `components`.
    pub fn triggered_observers(&self, target: Option<Entity>, components: &[ComponentId]) -> (r: Vec<(Entity, ObserverRunner)>)
        requires
            self.wf(),
        ensures
            r@.map_values(|p: (Entity, ObserverRunner)| (p.0.spec_bits(), p.1)) == self.triggered(
                match target {
                    Some(e) => Some(e.spec_bits()),
                    None => None,
                },
                components@.map_values(|c: ComponentId| c as u64),
            ),
    {
        let ghost tkey = match target {
            Some(e) => Some(e.spec_bits()),
            None => None::<u64>,
        };
        let ghost comps = components@.map_values(|c: ComponentId| c as u64);
        let mut r: Vec<(Entity, ObserverRunner)> = Vec::new();
        append_entries(&mut r, &self.universal_observers);
        if let Some(t) = target {
            if let Some(m) = self.entity_observers.get(t.to_bits()) {
                append_entries(&mut r, m);
            }
        }
        proof {
            assert(r@.map_values(|p: (Entity, ObserverRunner)| (p.0.spec_bits(), p.1)) =~= self.universal_observers.entries() + match tkey {
                Some(t) => nested_entries(self.entity_observers, t),
                None => Seq::empty(),
            });
        }
        let ghost head = r@.map_values(|p: (Entity, ObserverRunner)| (p.0.spec_bits(), p.1));
        let n = components.len();
        let mut i: usize = 0;
        while i < n
            invariant
                self.wf(),
                n == components@.len(),
                comps == components@.map_values(|c: ComponentId| c as u64),
                tkey == match target {
                    Some(e) => Some(e.spec_bits()),
                    None => None::<u64>,
                },
                i <= n,
                r@.map_values(|p: (Entity, ObserverRunner)| (p.0.spec_bits(), p.1)) == head + self.component_part(tkey, comps.take(i as int)),
            decreases n - i,
        {
            let c = components[i] as u64;
            let ghost before = r@.map_values(|p: (Entity, ObserverRunner)| (p.0.spec_bits(), p.1));
            if let Some(cco) = self.component_observers.get(c) {
                append_entries(&mut r, &cco.universal_observers);
                if let Some(t) = target {
                    if let Some(m) = cco.entity_component_observers.get(t.to_bits()) {
                        append_entries(&mut r, m);
                    }
                }
            }
            proof {
                assert(comps.take(i + 1).drop_last() =~= comps.take(i as int));
                assert(comps.take(i + 1).last() == c);
                let added = if self.component_observers@.contains_key(c) {
                    let cco = self.component_observers@[c];
                    cco.universal_observers.entries() + match tkey {
                        Some(t) => nested_entries(cco.entity_component_observers, t),
                        None => Seq::empty(),
                    }
                } else {
                    Seq::empty()
                };
                assert(r@.map_values(|p: (Entity, ObserverRunner)| (p.0.spec_bits(), p.1)) =~= before + added);
                assert(head + self.component_part(tkey, comps.take(i + 1)) =~= head + self.component_part(tkey, comps.take(i as int)) + added);
            }
            i += 1;
        }
        assert(comps.take(n as int) =~= comps);
        r
    }
}

} // verus!

verus! {

/// Whether scope `s` is reached by a trigger at `target` for components `comps`.
pub open spec fn reaches(target: Option<u64>, comps: Seq<u64>, s: Scope) -> bool {
    match s {
        Scope::Universal => true,
        Scope::Entity(e) => target == Some(e),
        Scope::Component(c) => comps.contains(c),
        Scope::ComponentEntity(c, e) => comps.contains(c) && target == Some(e),
    }
}

proof fn lemma_entries_contains(m: KeyMap<ObserverRunner>, o: u64)
    requires
        m.wf(),
    ensures
        forall|r: ObserverRunner| #[trigger] m.entries().contains((o, r)) == (opt_get(m@, o) == Some(r)),
{
    assert forall|r: ObserverRunner| #[trigger] m.entries().contains((o, r)) == (opt_get(m@, o) == Some(r)) by {
        if m.entries().contains((o, r)) {
            let i = choose|i: int| 0 <= i < m.entries().len() && m.entries()[i] == (o, r);
            let c = choose|c: int| 0 <= c < m.entries().len() && (#[trigger] m.entries()[c]).0 == o;
            assert(c == i);
        }
        if opt_get(m@, o) == Some(r) {
            let c = choose|c: int| 0 <= c < m.entries().len() && (#[trigger] m.entries()[c]).0 == o;
            assert(m.entries()[c] == (o, r));
        }
    }
}

proof fn lemma_nested_entries_contains(m: KeyMap<KeyMap<ObserverRunner>>, a: u64, o: u64)
    requires
        nested_wf(m),
    ensures
        forall|r: ObserverRunner| #[trigger] nested_entries(m, a).contains((o, r)) == (nested_get(m@, a, o) == Some(r)),
{
    if m@.contains_key(a) {
        lemma_entries_contains(m@[a], o);
    }
}

impl CachedObservers {
    pub open spec fn comp_hit(&self, target: Option<u64>, c: u64, o: u64, r: ObserverRunner) -> bool {
        self.runner_at(Scope::Component(c), o) == Some(r) || (target is Some && self.runner_at(Scope::ComponentEntity(c, target->Some_0), o) == Some(r))
    }

    pub open spec fn comp_added(&self, target: Option<u64>, c: u64) -> Seq<(u64, ObserverRunner)> {
        if self.component_observers@.contains_key(c) {
            let cco = self.component_observers@[c];
            cco.universal_observers.entries() + match target {
                Some(t) => nested_entries(cco.entity_component_observers, t),
                None => Seq::empty(),
            }
        } else {
            Seq::empty()
        }
    }

    proof fn lemma_comp_added_contains(&self, target: Option<u64>, c: u64, o: u64, r: ObserverRunner)
        requires
            self.wf(),
        ensures
            self.comp_added(target, c).contains((o, r)) == self.comp_hit(target, c, o, r),
    {
        broadcast use vstd::seq_lib::lemma_seq_concat_contains_all_elements;
        if self.component_observers@.contains_key(c) {
            let cco = self.component_observers@[c];
            lemma_entries_contains(cco.universal_observers, o);
            if let Some(t) = target {
                lemma_nested_entries_contains(cco.entity_component_observers, t, o);
            }
        }
    }

    proof fn lemma_component_part_contains(&self, target: Option<u64>, comps: Seq<u64>, o: u64, r: ObserverRunner)
        requires
            self.wf(),
        ensures
            self.component_part(target, comps).contains((o, r)) == exists|c: u64| #![trigger comps.contains(c)]
                comps.contains(c) && self.comp_hit(target, c, o, r),
        decreases comps.len(),
    {
        broadcast use vstd::seq_lib::lemma_seq_contains_after_push;
        broadcast use vstd::seq_lib::lemma_seq_concat_contains_all_elements;
        if comps.len() == 0 {
            assert(!(exists|c: u64| #![trigger comps.contains(c)] comps.contains(c) && self.comp_hit(target, c, o, r)));
        } else {
            let c = comps.last();
            let p = comps.drop_last();
            self.lemma_component_part_contains(target, p, o, r);
            self.lemma_comp_added_contains(target, c, o, r);
            assert(comps =~= p.push(c));
            assert(self.component_part(target, comps) == self.component_part(target, p) + self.comp_added(target, c));
            let rhs = exists|c2: u64| #![trigger comps.contains(c2)] comps.contains(c2) && self.comp_hit(target, c2, o, r);
            if rhs {
                let c2 = choose|c2: u64| #![trigger comps.contains(c2)] comps.contains(c2) && self.comp_hit(target, c2, o, r);
                if c2 != c {
                    assert(p.contains(c2));
                }
            }
            if self.component_part(target, p).contains((o, r)) {
                let c2 = choose|c2: u64| #![trigger p.contains(c2)] p.contains(c2) && self.comp_hit(target, c2, o, r);
                assert(comps.contains(c2));
            }
            if self.comp_added(target, c).contains((o, r)) {
                assert(comps.contains(c));
            }
        }
    }

    /// The triggered list holds an observer with a runner exactly when the observer is
    /// registered with that runner in some scope the trigger reaches.
    pub proof fn lemma_triggered_exactly(&self, target: Option<u64>, comps: Seq<u64>, o: u64, r: ObserverRunner)
        requires
            self.wf(),
        ensures
            self.triggered(target, comps).contains((o, r)) == exists|s: Scope| #[trigger] reaches(target, comps, s) && self.runner_at(s, o) == Some(r),
    {
        broadcast use vstd::seq_lib::lemma_seq_concat_contains_all_elements;
        lemma_entries_contains(self.universal_observers, o);
        if let Some(t) = target {
            lemma_nested_entries_contains(self.entity_observers, t, o);
        }
        self.lemma_component_part_contains(target, comps, o, r);
        let head = self.universal_observers.entries() + match target {
            Some(t) => nested_entries(self.entity_observers, t),
            None => Seq::empty(),
        };
        let rhs = exists|s: Scope| #[trigger] reaches(target, comps, s) && self.runner_at(s, o) == Some(r);
        if self.triggered(target, comps).contains((o, r)) {
            if self.universal_observers.entries().contains((o, r)) {
                assert(reaches(target, comps, Scope::Universal));
            } else if head.contains((o, r)) {
                let t = target->Some_0;
                assert(reaches(target, comps, Scope::Entity(t)));
            } else {
                assert(self.component_part(target, comps).contains((o, r)));
                let c = choose|c: u64| #![trigger comps.contains(c)] comps.contains(c) && self.comp_hit(target, c, o, r);
                assert(reaches(target, comps, Scope::Component(c)));
                if target is Some {
                    assert(reaches(target, comps, Scope::ComponentEntity(c, target->Some_0)));
                }
            }
        }
        if rhs {
            let s = choose|s: Scope| #[trigger] reaches(target, comps, s) && self.runner_at(s, o) == Some(r);
            match s {
                Scope::Universal => {},
                Scope::Entity(e) => {},
                Scope::Component(c) => {
                    assert(comps.contains(c) && self.comp_hit(target, c, o, r));
                },
                Scope::ComponentEntity(c, e) => {
                    assert(comps.contains(c) && self.comp_hit(target, c, o, r));
                },
            }
        }
    }
}

/// Whether an archetype's components are watched by lifecycle observers.
#[derive(Debug, Clone, Copy, PartialEq, Eq, Structural)]
pub struct ArchetypeFlags {
    pub on_add_observer: bool,
    pub on_insert_observer: bool,
    pub on_replace_observer: bool,
    pub on_remove_observer: bool,
    pub on_despawn_observer: bool,
}

/// One run of an observer when an event is triggered: the runner to call, and what it is handed
/// (the observer, the event, the components triggered for, and the entity the event is at and was
/// first aimed at).
#[derive(Debug, Clone)]
pub struct ObserverCall {
    pub observer: Entity,
    pub runner: ObserverRunner,
    pub event_type: ComponentId,
    pub components: Vec<ComponentId>,
    pub current_target: Option<Entity>,
    pub original_target: Option<Entity>,
}

/// Every observer of the world, by event. Lifecycle events have their own fields.
pub struct Observers {
    pub add: CachedObservers,
    pub insert: CachedObservers,
    pub replace: CachedObservers,
    pub remove: CachedObservers,
    pub despawn: CachedObservers,
    pub cache: KeyMap<CachedObservers>,
}

/// What registering an observer entity from the command queue came to.
#[derive(Debug, Clone, Copy, PartialEq, Eq, Structural)]
pub enum RegisterOutcome {
    Registered,
    MissingDescriptor,
    MissingObserver,
}

impl Observers {
    pub open spec fn wf(&self) -> bool {
        &&& self.add.wf()
        &&& self.insert.wf()
        &&& self.replace.wf()
        &&& self.remove.wf()
        &&& self.despawn.wf()
        &&& self.cache.wf()
        &&& forall|e: u64| #[trigger] self.cache@.contains_key(e) ==> self.cache@[e].wf()
    }

    /// The observers of event `event`, if any are kept for it.
    pub open spec fn cached_for(&self, event: usize) -> Option<CachedObservers> {
        if event == ADD {
            Some(self.add)
        } else if event == INSERT {
            Some(self.insert)
        } else if event == REPLACE {
            Some(self.replace)
        } else if event == REMOVE {
            Some(self.remove)
        } else if event == DESPAWN {
            Some(self.despawn)
        } else if self.cache@.contains_key(event as u64) {
            Some(self.cache@[event as u64])
        } else {
            None
        }
    }

    /// The runner of observer `o` for `event` in scope `s`, if registered.
    pub open spec fn event_runner(&self, event: usize, s: Scope, o: u64) -> Option<ObserverRunner> {
        match self.cached_for(event) {
            Some(c) => c.runner_at(s, o),
            None => None,
        }
    }

    /// `new` is `old` with observer `o` set to `r` in every (event, scope) that the descriptor
    /// covers, and nothing else changed.
    pub open spec fn is_update(new: &Self, old: &Self, o: u64, r: Option<ObserverRunner>, descriptor: &ObserverDescriptor) -> bool {
        forall|ev: usize, s: Scope, o2: u64| #[trigger] new.event_runner(ev, s, o2) == if o2 == o && descriptor.events@.contains(ev) && covers(descriptor.component_keys(), descriptor.entity_keys(), s) {
            r
        } else {
            old.event_runner(ev, s, o2)
        }
    }

    pub fn new() -> (o: Self)
        ensures
            o.wf(),
            forall|ev: usize, s: Scope, o2: u64| #[trigger] o.event_runner(ev, s, o2) is None,
    {
        let o = Observers {
            add: CachedObservers::new(),
            insert: CachedObservers::new(),
            replace: CachedObservers::new(),
            remove: CachedObservers::new(),
            despawn: CachedObservers::new(),
            cache: KeyMap::new(),
        };
        o
    }

    fn set_for_event(&mut self, event: usize, o: Entity, r: Option<ObserverRunner>, descriptor: &ObserverDescriptor)
        requires
            old(self).wf(),
        ensures
            final(self).wf(),
            forall|ev: usize, s: Scope, o2: u64| #[trigger] final(self).event_runner(ev, s, o2) == if o2 == o.spec_bits() && ev == event && covers(descriptor.component_keys(), descriptor.entity_keys(), s) {
                r
            } else {
                old(self).event_runner(ev, s, o2)
            },
    {
        let key = o.to_bits();
        if event == ADD {
            self.add.set_covered(key, r, descriptor);
        } else if event == INSERT {
            self.insert.set_covered(key, r, descriptor);
        } else if event == REPLACE {
            self.replace.set_covered(key, r, descriptor);
        } else if event == REMOVE {
            self.remove.set_covered(key, r, descriptor);
        } else if event == DESPAWN {
            self.despawn.set_covered(key, r, descriptor);
        } else {
            let ev = event as u64;
            let mut cached = match self.cache.remove(ev) {
                Some(c) => c,
                None => CachedObservers::new(),
            };
            cached.set_covered(key, r, descriptor);
            self.cache.insert(ev, cached);
            assert forall|ev2: usize, s: Scope, o2: u64| #[trigger] self.event_runner(ev2, s, o2) == if o2 == o.spec_bits() && ev2 == event && covers(descriptor.component_keys(), descriptor.entity_keys(), s) {
                r
            } else {
                old(self).event_runner(ev2, s, o2)
            } by {
                if ev2 as u64 == ev && ev2 > DESPAWN {
                    assert(ev2 == event);
                }
            }
        }
    }

    fn set_all_events(&mut self, o: Entity, r: Option<ObserverRunner>, descriptor: &ObserverDescriptor)
        requires
            old(self).wf(),
        ensures
            final(self).wf(),
            Self::is_update(final(self), old(self), o.spec_bits(), r, descriptor),
    {
        let n = descriptor.events.len();
        let mut i: usize = 0;
        while i < n
            invariant
                self.wf(),
                n == descriptor.events@.len(),
                i <= n,
                forall|ev: usize, s: Scope, o2: u64| #[trigger] self.event_runner(ev, s, o2) == if o2 == o.spec_bits() && descriptor.events@.take(i as int).contains(ev) && covers(descriptor.component_keys(), descriptor.entity_keys(), s) {
                    r
                } else {
                    old(self).event_runner(ev, s, o2)
                },
            decreases n - i,
        {
            let event = descriptor.events[i];
            let ghost prev = *self;
            self.set_for_event(event, o, r, descriptor);
            proof {
                assert(descriptor.events@.take(i + 1) =~= descriptor.events@.take(i as int).push(event));
                assert forall|ev: usize, s: Scope, o2: u64| #[trigger] self.event_runner(ev, s, o2) == if o2 == o.spec_bits() && descriptor.events@.take(i + 1).contains(ev) && covers(descriptor.component_keys(), descriptor.entity_keys(), s) {
                    r
                } else {
                    old(self).event_runner(ev, s, o2)
                } by {
                    assert(prev.event_runner(ev, s, o2) == if o2 == o.spec_bits() && descriptor.events@.take(i as int).contains(ev) && covers(descriptor.component_keys(), descriptor.entity_keys(), s) {
                        r
                    } else {
                        old(self).event_runner(ev, s, o2)
                    });
                    vstd::seq_lib::lemma_seq_contains_after_push(descriptor.events@.take(i as int), event, ev);
                }
            }
            i += 1;
        }
        assert(descriptor.events@.take(n as int) =~= descriptor.events@);
    }

    /// Registers observer entity `observer`, run by `runner`, for every event of its
    /// descriptor, in every scope the descriptor covers.
    pub fn register_observer(&mut self, observer: Entity, runner: ObserverRunner, descriptor: &ObserverDescriptor)
        requires
            old(self).wf(),
        ensures
            final(self).wf(),
            Self::is_update(final(self), old(self), observer.spec_bits(), Some(runner), descriptor),
    {
        self.set_all_events(observer, Some(runner), descriptor);
    }

    /// Unregisters observer entity `observer` from every event and scope its descriptor covers;
    /// nothing happens where it was not registered.
    pub fn unregister_observer(&mut self, observer: Entity, descriptor: &ObserverDescriptor)
        requires
            old(self).wf(),
        ensures
            final(self).wf(),
            Self::is_update(final(self), old(self), observer.spec_bits(), None, descriptor),
    {
        self.set_all_events(observer, None, descriptor);
    }

    /// Applies the command that registers observer entity `observer`, whose `ObserverDescriptor`
    /// and `Observer` components are `descriptor` and `observer_component` when it has them:
    /// it registers the observer with its runner when it has both, and otherwise does nothing.
    /// Returns whether it registered.
    pub fn apply_register_command(
        &mut self,
        observer: Entity,
        descriptor: Option<&ObserverDescriptor>,
        observer_component: Option<&Observer>,
    ) -> (registered: bool)
        requires
            old(self).wf(),
        ensures
            final(self).wf(),
            registered == (descriptor is Some && observer_component is Some),
            registered ==> Self::is_update(final(self), old(self), observer.spec_bits(), Some(observer_component->Some_0.runner), descriptor->Some_0),
            !registered ==> *final(self) == *old(self),
    {
        match (descriptor, observer_component) {
            (Some(d), Some(o)) => {
                self.register_observer(observer, o.runner, d);
                true
            },
            _ => false,
        }
    }

    /// The observers kept for `event_type`, if any.
    pub fn try_get_observers(&self, event_type: ComponentId) -> (r: Option<&CachedObservers>)
        requires
            self.wf(),
        ensures
            match r {
                Some(c) => self.cached_for(event_type) == Some(*c),
                None => self.cached_for(event_type) is None,
            },
    {
        if event_type == ADD {
            Some(&self.add)
        } else if event_type == INSERT {
            Some(&self.insert)
        } else if event_type == REPLACE {
            Some(&self.replace)
        } else if event_type == REMOVE {
            Some(&self.remove)
        } else if event_type == DESPAWN {
            Some(&self.despawn)
        } else {
            self.cache.get(event_type as u64)
        }
    }

    /// The observers to run, in order, when `event_type` is triggered at `target` for
    /// `components`; none when no observer was ever kept for that event.
    pub fn invoke_targets(&self, event_type: ComponentId, target: Option<Entity>, components: &[ComponentId]) -> (r: Vec<(Entity, ObserverRunner)>)
        requires
            self.wf(),
        ensures
            r@.map_values(|p: (Entity, ObserverRunner)| (p.0.spec_bits(), p.1)) == match self.cached_for(event_type) {
                Some(c) => c.triggered(
                    match target {
                        Some(e) => Some(e.spec_bits()),
                        None => None,
                    },
                    components@.map_values(|c: ComponentId| c as u64),
                ),
                None => Seq::empty(),
            },
    {
        match self.try_get_observers(event_type) {
            Some(c) => {
                proof {
                    assert(self.cached_for(event_type)->Some_0.wf());
                }
                c.triggered_observers(target, components)
            },
            None => {
                let r: Vec<(Entity, ObserverRunner)> = Vec::new();
                assert(r@.map_values(|p: (Entity, ObserverRunner)| (p.0.spec_bits(), p.1)) =~= Seq::empty());
                r
            },
        }
    }

    /// Triggers `event_type` at `current_target` (first aimed at `original_target`) for
    /// `components`: the world's trigger id `last_trigger_id` moves on by one (wrapping), and the
    /// result lists, in the order they run, one call per observer to run (see `invoke_targets`):
    /// its runner, handed the observer, the event, the components and both targets.
    pub fn invoke(
        &self,
        last_trigger_id: &mut u32,
        event_type: ComponentId,
        current_target: Option<Entity>,
        original_target: Option<Entity>,
        components: &[ComponentId],
    ) -> (r: Vec<ObserverCall>)
        requires
            self.wf(),
        ensures
            *final(last_trigger_id) == if *old(last_trigger_id) == u32::MAX { 0 } else { (*old(last_trigger_id) + 1) as u32 },
            r@.map_values(|c: ObserverCall| (c.observer.spec_bits(), c.runner)) == match self.cached_for(event_type) {
                Some(c) => c.triggered(
                    match current_target {
                        Some(e) => Some(e.spec_bits()),
                        None => None,
                    },
                    components@.map_values(|c: ComponentId| c as u64),
                ),
                None => Seq::empty(),
            },
            forall|i: int| 0 <= i < r@.len() ==> {
                &&& (#[trigger] r@[i]).event_type == event_type
                &&& r@[i].components@ == components@
                &&& r@[i].current_target == current_target
                &&& r@[i].original_target == original_target
            },
    {
        *last_trigger_id = last_trigger_id.wrapping_add(1);
        let targets = self.invoke_targets(event_type, current_target, components);
        let mut calls: Vec<ObserverCall> = Vec::new();
        let mut i: usize = 0;
        while i < targets.len()
            invariant
                i <= targets@.len(),
                calls@.len() == i,
                forall|j: int| 0 <= j < i ==> {
                    &&& (#[trigger] calls@[j]).observer == targets@[j].0
                    &&& calls@[j].runner == targets@[j].1
                    &&& calls@[j].event_type == event_type
                    &&& calls@[j].components@ == components@
                    &&& calls@[j].current_target == current_target
                    &&& calls@[j].original_target == original_target
                },
            decreases targets@.len() - i,
        {
            let (observer, runner) = targets[i];
            let mut comps: Vec<ComponentId> = Vec::new();
            let mut k: usize = 0;
            while k < components.len()
                invariant
                    k <= components@.len(),
                    comps@ == components@.take(k as int),
                decreases components@.len() - k,
            {
                comps.push(components[k]);
                assert(components@.take(k + 1) =~= components@.take(k as int).push(components@[k as int]));
                k += 1;
            }
            assert(components@.take(components@.len() as int) =~= components@);
            calls.push(ObserverCall {
                observer,
                runner,
                event_type,
                components: comps,
                current_target,
                original_target,
            });
            i += 1;
        }
        assert(calls@.map_values(|c: ObserverCall| (c.observer.spec_bits(), c.runner))
            =~= targets@.map_values(|p: (Entity, ObserverRunner)| (p.0.spec_bits(), p.1)));
        calls
    }

    /// Sets the lifecycle flags of `flags` for which some observer watches `component_id`;
    /// never clears a flag.
    pub fn update_archetype_flags(&self, component_id: ComponentId, flags: &mut ArchetypeFlags)
        requires
            self.wf(),
        ensures
            final(flags).on_add_observer == (old(flags).on_add_observer || self.add.component_observers@.contains_key(component_id as u64)),
            final(flags).on_insert_observer == (old(flags).on_insert_observer || self.insert.component_observers@.contains_key(component_id as u64)),
            final(flags).on_replace_observer == (old(flags).on_replace_observer || self.replace.component_observers@.contains_key(component_id as u64)),
            final(flags).on_remove_observer == (old(flags).on_remove_observer || self.remove.component_observers@.contains_key(component_id as u64)),
            final(flags).on_despawn_observer == (old(flags).on_despawn_observer || self.despawn.component_observers@.contains_key(component_id as u64)),
    {
        let c = component_id as u64;
        if self.add.component_observers.contains_key(c) {
            flags.on_add_observer = true;
        }
        if self.insert.component_observers.contains_key(c) {
            flags.on_insert_observer = true;
        }
        if self.replace.component_observers.contains_key(c) {
            flags.on_replace_observer = true;
        }
        if self.remove.component_observers.contains_key(c) {
            flags.on_remove_observer = true;
        }
        if self.despawn.component_observers.contains_key(c) {
            flags.on_despawn_observer = true;
        }
    }

    /// Registers an observer entity from what the world holds for it: its descriptor and its
    /// runner. When either is missing nothing is registered, and the outcome says which.
    pub fn register_from_world(&mut self, observer: Entity, descriptor: Option<&ObserverDescriptor>, runner: Option<ObserverRunner>) -> (r: RegisterOutcome)
        requires
            old(self).wf(),
        ensures
            final(self).wf(),
            descriptor is None ==> r == RegisterOutcome::MissingDescriptor && *final(self) == *old(self),
            descriptor is Some && runner is None ==> r == RegisterOutcome::MissingObserver && *final(self) == *old(self),
            descriptor is Some && runner is Some ==> r == RegisterOutcome::Registered && Self::is_update(
                final(self),
                old(self),
                observer.spec_bits(),
                runner,
                descriptor->Some_0,
            ),
    {
        let d = match descriptor {
            None => return RegisterOutcome::MissingDescriptor,
            Some(d) => d,
        };
        let rn = match runner {
            None => return RegisterOutcome::MissingObserver,
            Some(rn) => rn,
        };
        self.register_observer(observer, rn, d);
        RegisterOutcome::Registered
    }
}

/// Unregistering with the descriptor an observer was registered with clears it from every
/// event and scope that descriptor covers, and leaves every other registration as it was before
/// the registration.
pub proof fn law_unregister_undoes_register(
    before: &Observers,
    registered: &Observers,
    after: &Observers,
    o: u64,
    r: ObserverRunner,
    descriptor: &ObserverDescriptor,
)
    requires
        Observers::is_update(registered, before, o, Some(r), descriptor),
        Observers::is_update(after, registered, o, None, descriptor),
    ensures
        forall|ev: usize, s: Scope, o2: u64| #[trigger] after.event_runner(ev, s, o2) == if o2 == o && descriptor.events@.contains(ev) && covers(descriptor.component_keys(), descriptor.entity_keys(), s) {
            None
        } else {
            before.event_runner(ev, s, o2)
        },
{
    assert forall|ev: usize, s: Scope, o2: u64| #[trigger] after.event_runner(ev, s, o2) == if o2 == o && descriptor.events@.contains(ev) && covers(descriptor.component_keys(), descriptor.entity_keys(), s) {
        None
    } else {
        before.event_runner(ev, s, o2)
    } by {
        assert(registered.event_runner(ev, s, o2) == if o2 == o && descriptor.events@.contains(ev) && covers(descriptor.component_keys(), descriptor.entity_keys(), s) {
            Some(r)
        } else {
            before.event_runner(ev, s, o2)
        });
    }
}

/// Triggering an event runs exactly the observers registered for it in a scope the trigger
/// reaches: an observer is in the list with a runner if and only if it is registered with that
/// runner for that event in the universal scope, the target's scope, or the scope of one of
/// the triggered components (on any entity or on the target).
pub proof fn law_invoke_runs_registered(
    observers: &Observers,
    event: usize,
    target: Option<u64>,
    comps: Seq<u64>,
    o: u64,
    r: ObserverRunner,
)
    requires
        observers.wf(),
    ensures
        (match observers.cached_for(event) {
            Some(c) => c.triggered(target, comps),
            None => Seq::empty(),
        }).contains((o, r)) == exists|s: Scope| #[trigger] reaches(target, comps, s) && observers.event_runner(event, s, o) == Some(r),
{
    match observers.cached_for(event) {
        Some(c) => {
            c.lemma_triggered_exactly(target, comps, o, r);
        },
        None => {},
    }
}

/// A universal registration for an event is reached by every trigger of that event, whatever
/// its target and components.
pub proof fn law_registered_universal_observer_runs(
    before: &Observers,
    after: &Observers,
    observer: u64,
    r: ObserverRunner,
    descriptor: &ObserverDescriptor,
    event: usize,
    target: Option<u64>,
    comps: Seq<u64>,
)
    requires
        after.wf(),
        Observers::is_update(after, before, observer, Some(r), descriptor),
        descriptor.entities@.len() == 0,
        descriptor.events@.contains(event),
    ensures
        after.cached_for(event) is Some,
        after.cached_for(event)->Some_0.triggered(target, comps).contains((observer, r)),
{
    assert(after.event_runner(event, Scope::Universal, observer) == Some(r));
    assert(reaches(target, comps, Scope::Universal));
    law_invoke_runs_registered(after, event, target, comps, observer, r);
}


/// The number of times `x` occurs in `s`.
pub open spec fn occurrences<A>(s: Seq<A>, x: A) -> nat
    decreases s.len(),
{
    if s.len() == 0 {
        0
    } else {
        occurrences(s.drop_last(), x) + if s.last() == x { 1nat } else { 0nat }
    }
}

proof fn lemma_occurrences_concat<A>(a: Seq<A>, b: Seq<A>, x: A)
    ensures
        occurrences(a + b, x) == occurrences(a, x) + occurrences(b, x),
    decreases b.len(),
{
    if b.len() == 0 {
        assert(a + b =~= a);
    } else {
        assert((a + b).drop_last() =~= a + b.drop_last());
        assert((a + b).last() == b.last());
        lemma_occurrences_concat(a, b.drop_last(), x);
    }
}

/// In a list without repeated keys, an entry occurs once when present and not at all otherwise.
proof fn lemma_occurrences_unique_keys<V>(s: Seq<(u64, V)>, x: (u64, V))
    requires
        crate::keymap::keys_unique(s),
    ensures
        occurrences(s, x) == if s.contains(x) { 1nat } else { 0nat },
    decreases s.len(),
{
    if s.len() > 0 {
        let rest = s.drop_last();
        assert(crate::keymap::keys_unique(rest)) by {
            assert forall|i: int, j: int| 0 <= i < rest.len() && 0 <= j < rest.len() && i != j implies (#[trigger] rest[i]).0 != (#[trigger] rest[j]).0 by {
                assert(rest[i] == s[i] && rest[j] == s[j]);
            }
        }
        lemma_occurrences_unique_keys(rest, x);
        if s.last() == x {
            if rest.contains(x) {
                let i = choose|i: int| 0 <= i < rest.len() && rest[i] == x;
                assert(s[i] == x && s[s.len() - 1] == x);
            }
            assert(s[s.len() - 1] == x);
        } else {
            if s.contains(x) {
                let i = choose|i: int| 0 <= i < s.len() && s[i] == x;
                assert(i != s.len() - 1);
                assert(rest[i] == x);
            }
            if rest.contains(x) {
                let i = choose|i: int| 0 <= i < rest.len() && rest[i] == x;
                assert(s[i] == x);
            }
        }
    }
}

/// The entries of a map hold a registration once when the map registers it, else not at all.
proof fn lemma_entries_occurrences(m: KeyMap<ObserverRunner>, o: u64, r: ObserverRunner)
    requires
        m.wf(),
    ensures
        occurrences(m.entries(), (o, r)) == if opt_get(m@, o) == Some(r) { 1nat } else { 0nat },
{
    lemma_occurrences_unique_keys(m.entries(), (o, r));
    lemma_entries_contains(m, o);
    assert(m.entries().contains((o, r)) == (opt_get(m@, o) == Some(r)));
}

proof fn lemma_nested_occurrences(m: KeyMap<KeyMap<ObserverRunner>>, a: u64, o: u64, r: ObserverRunner)
    requires
        nested_wf(m),
    ensures
        occurrences(nested_entries(m, a), (o, r)) == if nested_get(m@, a, o) == Some(r) { 1nat } else { 0nat },
{
    if m@.contains_key(a) {
        lemma_entries_occurrences(m@[a], o, r);
    }
}

impl CachedObservers {
    /// 1 when observer `o` is registered with runner `r` in scope `sc`, otherwise 0.
    pub open spec fn registered_count(&self, sc: Scope, o: u64, r: ObserverRunner) -> nat {
        if self.runner_at(sc, o) == Some(r) { 1 } else { 0 }
    }

    /// How many of the scopes reached through the components `comps`, taken in turn with their
    /// repeats, register observer `o` with runner `r`: for each component, its scope, and its
    /// scope on the target when there is one.
    pub open spec fn component_registrations(&self, target: Option<u64>, comps: Seq<u64>, o: u64, r: ObserverRunner) -> nat
        decreases comps.len(),
    {
        if comps.len() == 0 {
            0
        } else {
            let c = comps.last();
            self.component_registrations(target, comps.drop_last(), o, r) + self.registered_count(Scope::Component(c), o, r)
                + match target {
                Some(t) => self.registered_count(Scope::ComponentEntity(c, t), o, r),
                None => 0,
            }
        }
    }

    proof fn lemma_component_part_occurrences(&self, target: Option<u64>, comps: Seq<u64>, o: u64, r: ObserverRunner)
        requires
            self.wf(),
        ensures
            occurrences(self.component_part(target, comps), (o, r)) == self.component_registrations(target, comps, o, r),
        decreases comps.len(),
    {
        if comps.len() > 0 {
            let c = comps.last();
            self.lemma_component_part_occurrences(target, comps.drop_last(), o, r);
            let added = if self.component_observers@.contains_key(c) {
                let cco = self.component_observers@[c];
                cco.universal_observers.entries() + match target {
                    Some(t) => nested_entries(cco.entity_component_observers, t),
                    None => Seq::empty(),
                }
            } else {
                Seq::empty()
            };
            lemma_occurrences_concat(self.component_part(target, comps.drop_last()), added, (o, r));
            if self.component_observers@.contains_key(c) {
                let cco = self.component_observers@[c];
                assert(cco.wf());
                let tail = match target {
                    Some(t) => nested_entries(cco.entity_component_observers, t),
                    None => Seq::<(u64, ObserverRunner)>::empty(),
                };
                lemma_occurrences_concat(cco.universal_observers.entries(), tail, (o, r));
                lemma_entries_occurrences(cco.universal_observers, o, r);
                if let Some(t) = target {
                    lemma_nested_occurrences(cco.entity_component_observers, t, o, r);
                }
            }
        }
    }
}

/// Triggering an event runs each registration once for each scope the trigger reaches that
/// holds it: observer `o` with runner `r` is in the list exactly as many times as the universal
/// scope, the target's scope, and, for each triggered component in turn (with its repeats), the
/// component's scope and its scope on the target, register it.
pub proof fn law_invoke_counts_registrations(c: CachedObservers, target: Option<u64>, comps: Seq<u64>, o: u64, r: ObserverRunner)
    requires
        c.wf(),
    ensures
        occurrences(c.triggered(target, comps), (o, r)) == c.registered_count(Scope::Universal, o, r)
            + match target {
            Some(t) => c.registered_count(Scope::Entity(t), o, r),
            None => 0,
        } + c.component_registrations(target, comps, o, r),
{
    let entity_part = match target {
        Some(t) => nested_entries(c.entity_observers, t),
        None => Seq::<(u64, ObserverRunner)>::empty(),
    };
    lemma_occurrences_concat(c.universal_observers.entries() + entity_part, c.component_part(target, comps), (o, r));
    lemma_occurrences_concat(c.universal_observers.entries(), entity_part, (o, r));
    lemma_entries_occurrences(c.universal_observers, o, r);
    if let Some(t) = target {
        lemma_nested_occurrences(c.entity_observers, t, o, r);
    }
    c.lemma_component_part_occurrences(target, comps, o, r);
}

} // verus!

