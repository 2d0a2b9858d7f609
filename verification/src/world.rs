use vstd::prelude::*;
use std::any::TypeId;
use crate::component::{ComponentDescriptor, Components, RelationKindId, RelationsError};
use crate::entity::{lemma_bits_injective, Entity};
use crate::query::{QueryRelationFilter, QuerySide};
use crate::targets::{target_bits, targets_contains, targets_get, targets_len, TargetList};

verus! {

/// One stored value of an entity: a component (no target) or a relation (with a target).
#[derive(Debug)]
pub struct Slot<V> {
    pub kind: usize,
    pub target: Option<Entity>,
    pub value: V,
}

/// The position of a target in the order slots are kept in: no target first, then by packed
/// entity.
pub open spec fn tkey(t: Option<Entity>) -> int {
    match t {
        None => 0,
        Some(e) => e.spec_bits() + 1,
    }
}

pub open spec fn key_lt(k1: usize, t1: Option<Entity>, k2: usize, t2: Option<Entity>) -> bool {
    k1 < k2 || (k1 == k2 && tkey(t1) < tkey(t2))
}

pub open spec fn slot_lt<V>(a: Slot<V>, b: Slot<V>) -> bool {
    key_lt(a.kind, a.target, b.kind, b.target)
}

/// Slots are kept strictly ascending by (kind, target), so no key occurs twice.
pub open spec fn sorted_slots<V>(s: Seq<Slot<V>>) -> bool {
    forall|i: int, j: int| 0 <= i < j < s.len() ==> slot_lt(#[trigger] s[i], #[trigger] s[j])
}

pub open spec fn has_slot<V>(s: Seq<Slot<V>>, kind: usize, target: Option<Entity>) -> bool {
    exists|i: int| 0 <= i < s.len() && (#[trigger] s[i]).kind == kind && s[i].target == target
}

/// The value stored under (`kind`, `target`), if any.
pub open spec fn lookup<V>(s: Seq<Slot<V>>, kind: usize, target: Option<Entity>) -> Option<V> {
    if has_slot(s, kind, target) {
        Some(s[choose|i: int| 0 <= i < s.len() && (#[trigger] s[i]).kind == kind && s[i].target == target].value)
    } else {
        None
    }
}

/// Whether `t` is an entity whose packed form occurs in `targets`.
pub open spec fn target_in(t: Option<Entity>, targets: Seq<u64>) -> bool {
    match t {
        Some(e) => targets.contains(e.spec_bits()),
        None => false,
    }
}

/// Whether a slot is one that a relation query of `kind` with required `targets` yields.
pub open spec fn yields<V>(sl: Slot<V>, kind: usize, targets: Seq<u64>) -> bool {
    sl.kind == kind && (targets.len() == 0 || target_in(sl.target, targets))
}

/// The (target, value) pairs a relation query yields from the slots `s`, in slot order.
pub open spec fn yielded<V>(s: Seq<Slot<V>>, kind: usize, targets: Seq<u64>) -> Seq<(Option<Entity>, V)>
    decreases s.len(),
{
    if s.len() == 0 {
        Seq::empty()
    } else {
        let rest = yielded(s.drop_last(), kind, targets);
        if yields(s.last(), kind, targets) {
            rest.push((s.last().target, s.last().value))
        } else {
            rest
        }
    }
}

/// Whether slots `s` hold `kind` aimed at the entity packed as `bits`.
pub open spec fn has_target<V>(s: Seq<Slot<V>>, kind: usize, bits: u64) -> bool {
    exists|i: int| 0 <= i < s.len() && (#[trigger] s[i]).kind == kind && target_in(s[i].target, seq![bits])
}

/// Whether slots `s` hold anything of `kind`.
pub open spec fn has_kind<V>(s: Seq<Slot<V>>, kind: usize) -> bool {
    exists|i: int| 0 <= i < s.len() && (#[trigger] s[i]).kind == kind
}

/// Whether an entity with slots `s` matches a relation query of `kind` with required `targets`:
/// it holds some value of that kind, and that kind aimed at every required target.
pub open spec fn matches_relation<V>(s: Seq<Slot<V>>, kind: usize, targets: Seq<u64>) -> bool {
    &&& has_kind(s, kind)
    &&& forall|j: int| 0 <= j < targets.len() ==> has_target(s, kind, #[trigger] targets[j])
}

/// The ids and answers of a relation query over the first `n` entity slots of a world.
pub open spec fn query_upto<V>(
    alive: Seq<bool>,
    data: Seq<Seq<Slot<V>>>,
    kind: usize,
    targets: Seq<u64>,
    n: nat,
) -> Seq<(Entity, Seq<(Option<Entity>, V)>)>
    decreases n,
{
    if n == 0 {
        Seq::empty()
    } else {
        let prev = query_upto(alive, data, kind, targets, (n - 1) as nat);
        let i = (n - 1) as int;
        if alive[i] && matches_relation(data[i], kind, targets) {
            prev.push((Entity { index: i as u32, generation: 0 }, yielded(data[i], kind, targets)))
        } else {
            prev
        }
    }
}

/// A world: a registry of kinds and a set of entities, each holding components and relations
/// whose values are of type `V`. Entity slots are never reused.
pub struct World<V> {
    id: u64,
    components: Components,
    alive: Vec<bool>,
    data: Vec<Vec<Slot<V>>>,
}

/// What an entity operation was refused for.
#[derive(Debug, Clone, Copy, PartialEq, Eq, Structural)]
pub enum WorldError {
    NoSuchEntity,
    UnregisteredKind,
}

fn target_less(a: Option<Entity>, b: Option<Entity>) -> (r: bool)
    ensures
        r == (tkey(a) < tkey(b)),
{
    match (a, b) {
        (None, None) => false,
        (None, Some(_)) => true,
        (Some(_), None) => false,
        (Some(x), Some(y)) => x.to_bits() < y.to_bits(),
    }
}

fn target_eq(a: Option<Entity>, b: Option<Entity>) -> (r: bool)
    ensures
        r == (a == b),
{
    match (a, b) {
        (None, None) => true,
        (Some(x), Some(y)) => x.index == y.index && x.generation == y.generation,
        _ => false,
    }
}

proof fn lemma_tkey_injective(a: Option<Entity>, b: Option<Entity>)
    ensures
        tkey(a) == tkey(b) <==> a == b,
{
    match (a, b) {
        (Some(x), Some(y)) => {
            lemma_bits_injective(x, y);
        },
        _ => {},
    }
}

proof fn lemma_target_in_single(t: Option<Entity>, f: u64)
    ensures
        target_in(t, seq![f]) <==> (t is Some && t->Some_0.spec_bits() == f),
{
    if let Some(e) = t {
        if e.spec_bits() == f {
            assert(seq![f][0] == f);
        }
    }
}

/// Where the key (`kind`, `target`) is, or belongs, in sorted slots: every slot before the
/// position is smaller, and the slot at the position (if any) is not.
fn find_position<V>(slots: &Vec<Slot<V>>, kind: usize, target: Option<Entity>) -> (pos: usize)
    requires
        sorted_slots(slots@),
    ensures
        pos <= slots@.len(),
        forall|j: int| 0 <= j < pos ==> key_lt(slots@[j].kind, slots@[j].target, kind, target),
        pos < slots@.len() ==> !key_lt(slots@[pos as int].kind, slots@[pos as int].target, kind, target),
{
    let mut i: usize = 0;
    while i < slots.len()
        invariant
            i <= slots@.len(),
            forall|j: int| 0 <= j < i ==> key_lt(slots@[j].kind, slots@[j].target, kind, target),
        decreases slots@.len() - i,
    {
        let sk = slots[i].kind;
        let lt = sk < kind || (sk == kind && target_less(slots[i].target, target));
        if !lt {
            return i;
        }
        i += 1;
    }
    i
}

proof fn lemma_lookup_at_position<V>(s: Seq<Slot<V>>, kind: usize, target: Option<Entity>, pos: int)
    requires
        sorted_slots(s),
        0 <= pos <= s.len(),
        forall|j: int| 0 <= j < pos ==> key_lt(s[j].kind, s[j].target, kind, target),
        pos < s.len() ==> !key_lt(s[pos].kind, s[pos].target, kind, target),
    ensures
        has_slot(s, kind, target) == (pos < s.len() && s[pos].kind == kind && s[pos].target == target),
        has_slot(s, kind, target) ==> lookup(s, kind, target) == Some(s[pos].value),
        !has_slot(s, kind, target) ==> lookup(s, kind, target) is None,
{
    if has_slot(s, kind, target) {
        let i = choose|i: int| 0 <= i < s.len() && (#[trigger] s[i]).kind == kind && s[i].target == target;
        lemma_tkey_injective(s[i].target, target);
        if i < pos {
            assert(key_lt(s[i].kind, s[i].target, kind, target));
        }
        if i > pos {
            assert(slot_lt(s[pos], s[i]));
        }
        assert(i == pos);
    }
    if pos < s.len() && s[pos].kind == kind && s[pos].target == target {
        assert(has_slot(s, kind, target));
    }
}

proof fn lemma_unique_index<V>(s: Seq<Slot<V>>, i: int, kind: usize, target: Option<Entity>)
    requires
        sorted_slots(s),
        0 <= i < s.len(),
        s[i].kind == kind,
        s[i].target == target,
    ensures
        has_slot(s, kind, target),
        lookup(s, kind, target) == Some(s[i].value),
{
    let c = choose|c: int| 0 <= c < s.len() && (#[trigger] s[c]).kind == kind && s[c].target == target;
    if c < i {
        assert(slot_lt(s[c], s[i]));
    }
    if c > i {
        assert(slot_lt(s[i], s[c]));
    }
}

impl<V: Copy> World<V> {
    pub closed spec fn spec_id(&self) -> u64 {
        self.id
    }

    pub closed spec fn spec_components(&self) -> Components {
        self.components
    }

    /// Which entity slots are alive, by index.
    pub closed spec fn alive_seq(&self) -> Seq<bool> {
        self.alive@
    }

    /// The stored values of every entity slot, by index.
    pub closed spec fn data_seq(&self) -> Seq<Seq<Slot<V>>> {
        Seq::new(self.data@.len(), |i: int| self.data@[i]@)
    }

    pub open spec fn live(&self, e: Entity) -> bool {
        &&& e.generation == 0
        &&& e.index < self.alive_seq().len()
        &&& self.alive_seq()[e.index as int]
    }

    /// The kind registered for component type `t`, if any.
    pub open spec fn kind_of_type(&self, t: TypeId) -> Option<usize> {
        if self.spec_components().component_map().contains_key(t) {
            Some(self.spec_components().component_map()[t])
        } else {
            None
        }
    }

    /// The value an entity holds under (`kind`, `target`).
    pub open spec fn value_of(&self, e: Entity, kind: usize, target: Option<Entity>) -> Option<V> {
        if self.live(e) {
            lookup(self.data_seq()[e.index as int], kind, target)
        } else {
            None
        }
    }

    /// The value an entity holds for component type `t` aimed at `target`.
    pub open spec fn value_of_type(&self, e: Entity, t: TypeId, target: Option<Entity>) -> Option<V> {
        match self.kind_of_type(t) {
            Some(k) => self.value_of(e, k, target),
            None => None,
        }
    }

    pub closed spec fn wf(&self) -> bool {
        &&& self.components.wf()
        &&& self.alive@.len() == self.data@.len()
        &&& self.alive@.len() <= u32::MAX
        &&& forall|i: int| 0 <= i < self.data@.len() ==> sorted_slots(#[trigger] self.data@[i]@)
    }

    /// A well-formed world holds one list of values per entity slot.
    pub proof fn lemma_slot_count(&self)
        requires
            self.wf(),
        ensures
            self.alive_seq().len() == self.data_seq().len(),
            self.alive_seq().len() <= u32::MAX,
    {
    }

    /// An empty world with the given id.
    pub fn with_id(id: u64) -> (w: Self)
        ensures
            w.wf(),
            w.spec_id() == id,
            w.alive_seq().len() == 0,
            w.spec_components().kinds().len() == 0,
            w.spec_components().component_map().is_empty(),
    {
        World { id, components: Components::new(), alive: Vec::new(), data: Vec::new() }
    }

    /// An empty world with id 0.
    pub fn new() -> (w: Self)
        ensures
            w.wf(),
            w.spec_id() == 0,
            w.alive_seq().len() == 0,
            w.spec_components().kinds().len() == 0,
            w.spec_components().component_map().is_empty(),
    {
        Self::with_id(0)
    }

    pub fn id(&self) -> (id: u64)
        ensures
            id == self.spec_id(),
    {
        self.id
    }

    pub fn components(&self) -> (c: &Components)
        ensures
            *c == self.spec_components(),
    {
        &self.components
    }

    /// Registers a component kind; refused when its type is already registered.
    pub fn register_component(&mut self, descriptor: ComponentDescriptor) -> (r: Result<RelationKindId, RelationsError>)
        requires
            old(self).wf(),
            descriptor.spec_type_id() is Some,
            old(self).spec_components().kinds().len() < usize::MAX,
        ensures
            final(self).wf(),
            final(self).alive_seq() == old(self).alive_seq(),
            final(self).data_seq() == old(self).data_seq(),
            final(self).spec_id() == old(self).spec_id(),
            ({
                let t = descriptor.spec_type_id()->Some_0;
                if old(self).spec_components().component_map().contains_key(t) {
                    &&& r is Err
                    &&& final(self).spec_components() == old(self).spec_components()
                } else {
                    &&& r == Ok::<RelationKindId, RelationsError>(RelationKindId(old(self).spec_components().kinds().len() as usize))
                    &&& final(self).spec_components().component_map() == old(self).spec_components().component_map().insert(
                        t,
                        old(self).spec_components().kinds().len() as usize,
                    )
                    &&& final(self).spec_components().kinds().len() == old(self).spec_components().kinds().len() + 1
                }
            }),
    {
        let t = descriptor.type_id().unwrap();
        match self.components.get_component_kind(t) {
            Some(info) => {
                let name = info.data_layout().name().to_string();
                Err(RelationsError::ComponentAlreadyExists { type_id: t, name })
            },
            None => {
                let info = self.components.new_component_kind(descriptor);
                Ok(info.id())
            },
        }
    }

    /// The kind registered for component type `t`, if any.
    pub fn kind_of(&self, t: TypeId) -> (k: Option<usize>)
        requires
            self.wf(),
        ensures
            k == self.kind_of_type(t),
    {
        match self.components.get_component_kind(t) {
            Some(info) => {
                let id = info.id();
                proof {
                    self.components.lemma_component_index(t);
                }
                Some(id.0)
            },
            None => None,
        }
    }

    /// A new, empty, live entity in the next unused slot.
    pub fn spawn(&mut self) -> (e: Entity)
        requires
            old(self).wf(),
            old(self).alive_seq().len() < u32::MAX,
        ensures
            final(self).wf(),
            e.index == old(self).alive_seq().len(),
            e.generation == 0,
            final(self).alive_seq() == old(self).alive_seq().push(true),
            final(self).data_seq() == old(self).data_seq().push(Seq::<Slot<V>>::empty()),
            final(self).spec_components() == old(self).spec_components(),
            final(self).spec_id() == old(self).spec_id(),
    {
        let index = self.alive.len() as u32;
        self.alive.push(true);
        self.data.push(Vec::new());
        assert(self.data_seq() =~= old(self).data_seq().push(Seq::<Slot<V>>::empty()));
        Entity { index, generation: 0 }
    }

    /// Whether `e` names a live entity of this world.
    pub fn is_alive(&self, e: Entity) -> (r: bool)
        requires
            self.wf(),
        ensures
            r == self.live(e),
    {
        e.generation == 0 && (e.index as usize) < self.alive.len() && self.alive[e.index as usize]
    }

    /// Despawns `e`, dropping all it holds; returns whether it was alive.
    pub fn despawn(&mut self, e: Entity) -> (r: bool)
        requires
            old(self).wf(),
        ensures
            final(self).wf(),
            r == old(self).live(e),
            r ==> final(self).alive_seq() == old(self).alive_seq().update(e.index as int, false),
            r ==> final(self).data_seq() == old(self).data_seq().update(e.index as int, Seq::<Slot<V>>::empty()),
            !r ==> final(self).alive_seq() == old(self).alive_seq() && final(self).data_seq() == old(self).data_seq(),
            final(self).spec_components() == old(self).spec_components(),
            final(self).spec_id() == old(self).spec_id(),
    {
        if !self.is_alive(e) {
            return false;
        }
        let i = e.index as usize;
        self.alive.set(i, false);
        self.data.set(i, Vec::new());
        assert(self.data_seq() =~= old(self).data_seq().update(e.index as int, Seq::<Slot<V>>::empty()));
        true
    }

    /// Stores `value` under (`kind`, `target`) on live entity `e`; returns the value it replaced.
    fn put(&mut self, e: Entity, kind: usize, target: Option<Entity>, value: V) -> (r: Option<V>)
        requires
            old(self).wf(),
            old(self).live(e),
        ensures
            final(self).wf(),
            r == old(self).value_of(e, kind, target),
            final(self).alive_seq() == old(self).alive_seq(),
            final(self).spec_components() == old(self).spec_components(),
            final(self).spec_id() == old(self).spec_id(),
            forall|e2: Entity, k2: usize, t2: Option<Entity>|
                #[trigger] final(self).value_of(e2, k2, t2) == if e2 == e && k2 == kind && t2 == target {
                    Some(value)
                } else {
                    old(self).value_of(e2, k2, t2)
                },
    {
        let i = e.index as usize;
        let ghost old_slots = self.data@[i as int]@;
        let pos = find_position(&self.data[i], kind, target);
        proof {
            lemma_lookup_at_position(old_slots, kind, target, pos as int);
        }
        let found = pos < self.data[i].len() && self.data[i][pos].kind == kind && target_eq(self.data[i][pos].target, target);
        let mut slots: Vec<Slot<V>> = Vec::new();
        std::mem::swap(&mut slots, &mut self.data[i]);
        let result = if found {
            let prev = slots[pos].value;
            slots.set(pos, Slot { kind, target, value });
            Some(prev)
        } else {
            slots.insert(pos, Slot { kind, target, value });
            None
        };
        let ghost new_slots = slots@;
        proof {
            let s = old_slots;
            if found {
                assert(new_slots == s.update(pos as int, Slot { kind, target, value }));
                assert(sorted_slots(new_slots)) by {
                    assert forall|a: int, b: int| 0 <= a < b < new_slots.len() implies slot_lt(#[trigger] new_slots[a], #[trigger] new_slots[b]) by {
                        assert(slot_lt(s[a], s[b]));
                    }
                }
            } else {
                s.insert_ensures(pos as int, Slot { kind, target, value });
                assert(sorted_slots(new_slots)) by {
                    assert forall|a: int, b: int| 0 <= a < b < new_slots.len() implies slot_lt(#[trigger] new_slots[a], #[trigger] new_slots[b]) by {
                        if a < pos && b < pos {
                            assert(slot_lt(s[a], s[b]));
                        } else if a < pos && b == pos {
                        } else if a < pos && b > pos {
                            assert(new_slots[b] == s[b - 1]);
                            if b - 1 > pos {
                                assert(slot_lt(s[pos as int], s[b - 1]));
                            }
                            lemma_tkey_injective(s[b - 1].target, target);
                        } else if a == pos {
                            assert(new_slots[b] == s[b - 1]);
                            if b - 1 > pos {
                                assert(slot_lt(s[pos as int], s[b - 1]));
                            }
                            lemma_tkey_injective(s[b - 1].target, target);
                            lemma_tkey_injective(s[pos as int].target, target);
                        } else {
                            assert(new_slots[a] == s[a - 1]);
                            assert(new_slots[b] == s[b - 1]);
                            assert(slot_lt(s[a - 1], s[b - 1]));
                        }
                    }
                }
            }
            // the key now maps to the new value
            lemma_unique_index(new_slots, pos as int, kind, target);
            // other keys are unchanged
            assert forall|k2: usize, t2: Option<Entity>| !(k2 == kind && t2 == target) implies #[trigger] lookup(new_slots, k2, t2) == lookup(s, k2, t2) by {
                if has_slot(s, k2, t2) {
                    let c = choose|c: int| 0 <= c < s.len() && (#[trigger] s[c]).kind == k2 && s[c].target == t2;
                    lemma_unique_index(s, c, k2, t2);
                    if found {
                        assert(c != pos);
                        lemma_unique_index(new_slots, c, k2, t2);
                    } else if c < pos {
                        lemma_unique_index(new_slots, c, k2, t2);
                    } else {
                        assert(new_slots[c + 1] == s[c]);
                        lemma_unique_index(new_slots, c + 1, k2, t2);
                    }
                }
                if has_slot(new_slots, k2, t2) {
                    let c = choose|c: int| 0 <= c < new_slots.len() && (#[trigger] new_slots[c]).kind == k2 && new_slots[c].target == t2;
                    if found {
                        assert(c != pos);
                        assert(new_slots[c] == s[c]);
                        assert(has_slot(s, k2, t2));
                    } else if c < pos {
                        assert(new_slots[c] == s[c]);
                        assert(has_slot(s, k2, t2));
                    } else {
                        assert(c != pos);
                        assert(new_slots[c] == s[c - 1]);
                        assert(has_slot(s, k2, t2));
                    }
                }
            }
        }
        self.data.set(i, slots);
        proof {
            assert(self.data_seq() =~= old(self).data_seq().update(i as int, new_slots));
            assert forall|e2: Entity, k2: usize, t2: Option<Entity>|
                #[trigger] self.value_of(e2, k2, t2) == if e2 == e && k2 == kind && t2 == target {
                    Some(value)
                } else {
                    old(self).value_of(e2, k2, t2)
                } by {
                if e2.index == e.index && self.live(e2) {
                    assert(e2 == e);
                }
            }
        }
        result
    }

    /// Inserts component `t` with `value` on live entity `e`; returns the value it replaced.
    pub fn insert(&mut self, e: Entity, t: TypeId, value: V) -> (r: Result<Option<V>, WorldError>)
        requires
            old(self).wf(),
        ensures
            final(self).wf(),
            final(self).alive_seq() == old(self).alive_seq(),
            final(self).spec_components() == old(self).spec_components(),
            final(self).spec_id() == old(self).spec_id(),
            !old(self).live(e) ==> r == Err::<Option<V>, WorldError>(WorldError::NoSuchEntity) && final(self).data_seq() == old(self).data_seq(),
            old(self).live(e) && old(self).kind_of_type(t) is None ==> r == Err::<Option<V>, WorldError>(WorldError::UnregisteredKind) && final(self).data_seq() == old(self).data_seq(),
            old(self).live(e) && old(self).kind_of_type(t) is Some ==> {
                &&& r == Ok::<Option<V>, WorldError>(old(self).value_of_type(e, t, None))
                &&& forall|e2: Entity, t2: TypeId, g2: Option<Entity>|
                    #[trigger] final(self).value_of_type(e2, t2, g2) == if e2 == e && old(self).kind_of_type(t2) == old(self).kind_of_type(t) && g2 is None {
                        Some(value)
                    } else {
                        old(self).value_of_type(e2, t2, g2)
                    }
            },
    {
        self.insert_at(e, t, None, value)
    }

    /// Inserts the relation `t` from live entity `e` to `target` with `value`; returns the value
    /// it replaced.
    pub fn insert_relation(&mut self, e: Entity, t: TypeId, value: V, target: Entity) -> (r: Result<Option<V>, WorldError>)
        requires
            old(self).wf(),
        ensures
            final(self).wf(),
            final(self).alive_seq() == old(self).alive_seq(),
            final(self).spec_components() == old(self).spec_components(),
            final(self).spec_id() == old(self).spec_id(),
            !old(self).live(e) ==> r == Err::<Option<V>, WorldError>(WorldError::NoSuchEntity) && final(self).data_seq() == old(self).data_seq(),
            old(self).live(e) && old(self).kind_of_type(t) is None ==> r == Err::<Option<V>, WorldError>(WorldError::UnregisteredKind) && final(self).data_seq() == old(self).data_seq(),
            old(self).live(e) && old(self).kind_of_type(t) is Some ==> {
                &&& r == Ok::<Option<V>, WorldError>(old(self).value_of_type(e, t, Some(target)))
                &&& forall|e2: Entity, t2: TypeId, g2: Option<Entity>|
                    #[trigger] final(self).value_of_type(e2, t2, g2) == if e2 == e && old(self).kind_of_type(t2) == old(self).kind_of_type(t) && g2 == Some(target) {
                        Some(value)
                    } else {
                        old(self).value_of_type(e2, t2, g2)
                    }
            },
    {
        self.insert_at(e, t, Some(target), value)
    }

    fn insert_at(&mut self, e: Entity, t: TypeId, target: Option<Entity>, value: V) -> (r: Result<Option<V>, WorldError>)
        requires
            old(self).wf(),
        ensures
            final(self).wf(),
            final(self).alive_seq() == old(self).alive_seq(),
            final(self).spec_components() == old(self).spec_components(),
            final(self).spec_id() == old(self).spec_id(),
            !old(self).live(e) ==> r == Err::<Option<V>, WorldError>(WorldError::NoSuchEntity) && final(self).data_seq() == old(self).data_seq(),
            old(self).live(e) && old(self).kind_of_type(t) is None ==> r == Err::<Option<V>, WorldError>(WorldError::UnregisteredKind) && final(self).data_seq() == old(self).data_seq(),
            old(self).live(e) && old(self).kind_of_type(t) is Some ==> {
                &&& r == Ok::<Option<V>, WorldError>(old(self).value_of_type(e, t, target))
                &&& forall|e2: Entity, t2: TypeId, g2: Option<Entity>|
                    #[trigger] final(self).value_of_type(e2, t2, g2) == if e2 == e && old(self).kind_of_type(t2) == old(self).kind_of_type(t) && g2 == target {
                        Some(value)
                    } else {
                        old(self).value_of_type(e2, t2, g2)
                    }
            },
    {
        if !self.is_alive(e) {
            return Err(WorldError::NoSuchEntity);
        }
        match self.kind_of(t) {
            None => Err(WorldError::UnregisteredKind),
            Some(k) => {
                let prev = self.put(e, k, target, value);
                proof {
                    assert forall|e2: Entity, t2: TypeId, g2: Option<Entity>|
                        #[trigger] self.value_of_type(e2, t2, g2) == if e2 == e && old(self).kind_of_type(t2) == old(self).kind_of_type(t) && g2 == target {
                            Some(value)
                        } else {
                            old(self).value_of_type(e2, t2, g2)
                        } by {
                        match old(self).kind_of_type(t2) {
                            Some(k2) => {
                                assert(self.value_of(e2, k2, g2) == if e2 == e && k2 == k && g2 == target { Some(value) } else { old(self).value_of(e2, k2, g2) });
                            },
                            None => {},
                        }
                    }
                }
                Ok(prev)
            },
        }
    }

    /// The value of (`kind`, `target`) on `e`, if `e` is live and holds one.
    fn get_at(&self, e: Entity, kind: usize, target: Option<Entity>) -> (r: Option<V>)
        requires
            self.wf(),
        ensures
            r == self.value_of(e, kind, target),
    {
        if !self.is_alive(e) {
            return None;
        }
        let i = e.index as usize;
        let pos = find_position(&self.data[i], kind, target);
        proof {
            lemma_lookup_at_position(self.data@[i as int]@, kind, target, pos as int);
        }
        if pos < self.data[i].len() && self.data[i][pos].kind == kind && target_eq(self.data[i][pos].target, target) {
            Some(self.data[i][pos].value)
        } else {
            None
        }
    }

    /// The value of component `t` on `e`.
    pub fn get(&self, e: Entity, t: TypeId) -> (r: Option<V>)
        requires
            self.wf(),
        ensures
            r == self.value_of_type(e, t, None),
    {
        match self.kind_of(t) {
            Some(k) => self.get_at(e, k, None),
            None => None,
        }
    }

    /// The value of relation `t` from `e` to `target`.
    pub fn get_relation(&self, e: Entity, t: TypeId, target: Entity) -> (r: Option<V>)
        requires
            self.wf(),
        ensures
            r == self.value_of_type(e, t, Some(target)),
    {
        match self.kind_of(t) {
            Some(k) => self.get_at(e, k, Some(target)),
            None => None,
        }
    }

    /// Whether `e` holds relation `t` aimed at `target`.
    pub fn contains_relation(&self, e: Entity, t: TypeId, target: Entity) -> (r: bool)
        requires
            self.wf(),
        ensures
            r == self.value_of_type(e, t, Some(target)) is Some,
    {
        self.get_relation(e, t, target).is_some()
    }

    /// Removes relation `t` from `e` to `target`; returns the value it held.
    pub fn remove_relation(&mut self, e: Entity, t: TypeId, target: Entity) -> (r: Option<V>)
        requires
            old(self).wf(),
        ensures
            final(self).wf(),
            r == old(self).value_of_type(e, t, Some(target)),
            final(self).alive_seq() == old(self).alive_seq(),
            final(self).spec_components() == old(self).spec_components(),
            final(self).spec_id() == old(self).spec_id(),
            forall|e2: Entity, t2: TypeId, g2: Option<Entity>|
                #[trigger] final(self).value_of_type(e2, t2, g2) == if e2 == e && old(self).kind_of_type(t2) == old(self).kind_of_type(t) && g2 == Some(target) {
                    None
                } else {
                    old(self).value_of_type(e2, t2, g2)
                },
    {
        if !self.is_alive(e) {
            return None;
        }
        match self.kind_of(t) {
            None => None,
            Some(k) => {
                let r = self.take(e, k, Some(target));
                proof {
                    assert forall|e2: Entity, t2: TypeId, g2: Option<Entity>|
                        #[trigger] self.value_of_type(e2, t2, g2) == if e2 == e && old(self).kind_of_type(t2) == old(self).kind_of_type(t) && g2 == Some(target) {
                            None
                        } else {
                            old(self).value_of_type(e2, t2, g2)
                        } by {
                        match old(self).kind_of_type(t2) {
                            Some(k2) => {
                                assert(self.value_of(e2, k2, g2) == if e2 == e && k2 == k && g2 == Some(target) { None } else { old(self).value_of(e2, k2, g2) });
                            },
                            None => {},
                        }
                    }
                }
                r
            },
        }
    }

    /// Runs the query of every entity with its relations `t` over the world: for every live
    /// entity, in slot order, that holds relation `t` aimed at every target the filter requires
    /// of the fetched term of kind `t` (and holds at least one relation `t`), its id and the
    /// (target, value) pairs of `t` it holds, in ascending target order, keeping only the
    /// required targets when the filter requires any.
    pub fn query_relation(&self, t: TypeId, filter: &QueryRelationFilter) -> (r: Vec<(Entity, Vec<(Option<Entity>, V)>)>)
        requires
            self.wf(),
        ensures
            r@.map_values(|p: (Entity, Vec<(Option<Entity>, V)>)| (p.0, p.1@)) == match self.kind_of_type(t) {
                None => Seq::<(Entity, Seq<(Option<Entity>, V)>)>::empty(),
                Some(k) => query_upto(self.alive_seq(), self.data_seq(), k, filter.targets_for(QuerySide::Data, t), self.alive_seq().len()),
            },
    {
        let mut r: Vec<(Entity, Vec<(Option<Entity>, V)>)> = Vec::new();
        let k = match self.kind_of(t) {
            None => {
                assert(r@.map_values(|p: (Entity, Vec<(Option<Entity>, V)>)| (p.0, p.1@)) =~= Seq::empty());
                return r;
            },
            Some(k) => k,
        };
        let required = filter.required(QuerySide::Data, &t);
        let ghost targets = target_bits(required);
        let n = self.alive.len();
        let mut i: usize = 0;
        while i < n
            invariant
                self.wf(),
                n == self.alive_seq().len(),
                i <= n,
                targets == target_bits(required),
                r@.map_values(|p: (Entity, Vec<(Option<Entity>, V)>)| (p.0, p.1@)) == query_upto(self.alive_seq(), self.data_seq(), k, targets, i as nat),
            decreases n - i,
        {
            let ghost before = r@;
            if self.alive[i] && Self::slots_match(&self.data[i], k, &required) {
                let items = Self::slots_yield(&self.data[i], k, &required);
                r.push((Entity { index: i as u32, generation: 0 }, items));
                proof {
                    assert(self.data_seq()[i as int] == self.data@[i as int]@);
                    assert(r@ =~= before.push((Entity { index: i as u32, generation: 0 }, items)));
                    assert(r@.map_values(|p: (Entity, Vec<(Option<Entity>, V)>)| (p.0, p.1@)) =~= before.map_values(|p: (Entity, Vec<(Option<Entity>, V)>)| (p.0, p.1@)).push((Entity { index: i as u32, generation: 0 }, items@)));
                }
            } else {
                proof {
                    assert(self.data_seq()[i as int] == self.data@[i as int]@);
                }
            }
            i += 1;
        }
        r
    }

    fn slots_match(slots: &Vec<Slot<V>>, kind: usize, targets: &TargetList) -> (r: bool)
        ensures
            r == matches_relation(slots@, kind, target_bits(*targets)),
    {
        let mut found_kind = false;
        let mut j: usize = 0;
        while j < slots.len()
            invariant
                j <= slots@.len(),
                found_kind == exists|i: int| 0 <= i < j && (#[trigger] slots@[i]).kind == kind,
            decreases slots@.len() - j,
        {
            if slots[j].kind == kind {
                found_kind = true;
            }
            j += 1;
        }
        if !found_kind {
            return false;
        }
        let n = targets_len(targets);
        let mut f: usize = 0;
        while f < n
            invariant
                n == target_bits(*targets).len(),
                f <= n,
                forall|q: int| 0 <= q < f ==> has_target(slots@, kind, #[trigger] target_bits(*targets)[q]),
            decreases n - f,
        {
            let b = targets_get(targets, f);
            let mut present = false;
            let mut j: usize = 0;
            while j < slots.len()
                invariant
                    j <= slots@.len(),
                    present == exists|i: int| 0 <= i < j && (#[trigger] slots@[i]).kind == kind && target_in(slots@[i].target, seq![b]),
                decreases slots@.len() - j,
            {
                let hit = match slots[j].target {
                    Some(e) => slots[j].kind == kind && e.to_bits() == b,
                    None => false,
                };
                proof {
                    lemma_target_in_single(slots@[j as int].target, b);
                }
                if hit {
                    present = true;
                }
                j += 1;
            }
            if !present {
                return false;
            }
            f += 1;
        }
        true
    }

    fn slots_yield(slots: &Vec<Slot<V>>, kind: usize, targets: &TargetList) -> (r: Vec<(Option<Entity>, V)>)
        ensures
            r@ == yielded(slots@, kind, target_bits(*targets)),
    {
        let any = targets_len(targets) > 0;
        let mut r: Vec<(Option<Entity>, V)> = Vec::new();
        let mut j: usize = 0;
        while j < slots.len()
            invariant
                j <= slots@.len(),
                any == (target_bits(*targets).len() > 0),
                r@ == yielded(slots@.take(j as int), kind, target_bits(*targets)),
            decreases slots@.len() - j,
        {
            let sl_kind = slots[j].kind;
            let sl_target = slots[j].target;
            let keep = sl_kind == kind && (!any || match sl_target {
                Some(e) => targets_contains(targets, e.to_bits()),
                None => false,
            });
            proof {
                assert(slots@.take(j + 1).drop_last() =~= slots@.take(j as int));
                assert(slots@.take(j + 1).last() == slots@[j as int]);
            }
            if keep {
                r.push((sl_target, slots[j].value));
            }
            j += 1;
        }
        assert(slots@.take(slots@.len() as int) =~= slots@);
        r
    }

    fn take(&mut self, e: Entity, kind: usize, target: Option<Entity>) -> (r: Option<V>)
        requires
            old(self).wf(),
            old(self).live(e),
        ensures
            final(self).wf(),
            r == old(self).value_of(e, kind, target),
            final(self).alive_seq() == old(self).alive_seq(),
            final(self).spec_components() == old(self).spec_components(),
            final(self).spec_id() == old(self).spec_id(),
            forall|e2: Entity, k2: usize, t2: Option<Entity>|
                #[trigger] final(self).value_of(e2, k2, t2) == if e2 == e && k2 == kind && t2 == target {
                    None
                } else {
                    old(self).value_of(e2, k2, t2)
                },
    {
        let i = e.index as usize;
        let ghost s = self.data@[i as int]@;
        let pos = find_position(&self.data[i], kind, target);
        proof {
            lemma_lookup_at_position(s, kind, target, pos as int);
        }
        let found = pos < self.data[i].len() && self.data[i][pos].kind == kind && target_eq(self.data[i][pos].target, target);
        if !found {
            proof {
                assert forall|e2: Entity, k2: usize, t2: Option<Entity>|
                    #[trigger] self.value_of(e2, k2, t2) == if e2 == e && k2 == kind && t2 == target {
                        None
                    } else {
                        old(self).value_of(e2, k2, t2)
                    } by {}
            }
            return None;
        }
        let mut slots: Vec<Slot<V>> = Vec::new();
        std::mem::swap(&mut slots, &mut self.data[i]);
        let removed = slots.remove(pos);
        let ghost new_slots = slots@;
        proof {
            s.remove_ensures(pos as int);
            assert(sorted_slots(new_slots)) by {
                assert forall|a: int, b: int| 0 <= a < b < new_slots.len() implies slot_lt(#[trigger] new_slots[a], #[trigger] new_slots[b]) by {
                    let a0 = if a < pos { a } else { a + 1 };
                    let b0 = if b < pos { b } else { b + 1 };
                    assert(new_slots[a] == s[a0]);
                    assert(new_slots[b] == s[b0]);
                    assert(slot_lt(s[a0], s[b0]));
                }
            }
            assert(!has_slot(new_slots, kind, target)) by {
                if has_slot(new_slots, kind, target) {
                    let c = choose|c: int| 0 <= c < new_slots.len() && (#[trigger] new_slots[c]).kind == kind && new_slots[c].target == target;
                    let c0 = if c < pos { c } else { c + 1 };
                    assert(new_slots[c] == s[c0]);
                    lemma_unique_index(s, c0, kind, target);
                    lemma_unique_index(s, pos as int, kind, target);
                    assert(c0 != pos);
                    if c0 < pos {
                        assert(slot_lt(s[c0], s[pos as int]));
                    } else {
                        assert(slot_lt(s[pos as int], s[c0]));
                    }
                    lemma_tkey_injective(s[c0].target, s[pos as int].target);
                }
            }
            assert forall|k2: usize, t2: Option<Entity>| !(k2 == kind && t2 == target) implies #[trigger] lookup(new_slots, k2, t2) == lookup(s, k2, t2) by {
                if has_slot(s, k2, t2) {
                    let c = choose|c: int| 0 <= c < s.len() && (#[trigger] s[c]).kind == k2 && s[c].target == t2;
                    lemma_unique_index(s, c, k2, t2);
                    assert(c != pos);
                    let c1 = if c < pos { c } else { c - 1 };
                    assert(new_slots[c1] == s[c]);
                    lemma_unique_index(new_slots, c1, k2, t2);
                }
                if has_slot(new_slots, k2, t2) {
                    let c = choose|c: int| 0 <= c < new_slots.len() && (#[trigger] new_slots[c]).kind == k2 && new_slots[c].target == t2;
                    let c0 = if c < pos { c } else { c + 1 };
                    assert(new_slots[c] == s[c0]);
                    assert(has_slot(s, k2, t2));
                }
            }
        }
        self.data.set(i, slots);
        proof {
            assert(self.data_seq() =~= old(self).data_seq().update(i as int, new_slots));
            assert forall|e2: Entity, k2: usize, t2: Option<Entity>|
                #[trigger] self.value_of(e2, k2, t2) == if e2 == e && k2 == kind && t2 == target {
                    None
                } else {
                    old(self).value_of(e2, k2, t2)
                } by {
                if e2.index == e.index && self.live(e2) {
                    assert(e2 == e);
                }
            }
        }
        Some(removed.value)
    }
}

} // verus!
