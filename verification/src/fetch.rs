use vstd::prelude::*;
use std::any::TypeId;
use crate::component::{ComponentDescriptor, Components, RelationKindId, StorageType};
use crate::entity::Entity;
use crate::query::{
    add_selected, all_targets_present, columns_contain, columns_have_kind, contains_column, has_kind_column, pack_target,
    selected_ids, selects, target_key, Access, AccessConflict, Archetype, ChangeTrackersState, FilteredAccess,
    QueryRelationFilter, QuerySide, ReadRelationState, ReadState, Table, WriteState,
};
use crate::targets::{target_bits, targets_get, targets_len};

verus! {

/// The targets `filter` requires, on `side`, of each relation type.
pub open spec fn targets_on(filter: QueryRelationFilter, side: QuerySide) -> spec_fn(TypeId) -> Seq<u64> {
    |t: TypeId| filter.targets_for(side, t)
}

/// No target required of any relation type.
pub open spec fn no_targets() -> spec_fn(TypeId) -> Seq<u64> {
    |t: TypeId| Seq::<u64>::empty()
}

/// The reads and writes after recording `terms` in order (each a component and whether it is
/// written) over `reads` and `writes`, stopping at the first term that conflicts with what was
/// recorded before it, which is reported.
pub open spec fn record_terms(reads: Seq<usize>, writes: Seq<usize>, terms: Seq<(usize, bool)>) -> (Seq<usize>, Seq<usize>, Option<AccessConflict>)
    decreases terms.len(),
{
    if terms.len() == 0 {
        (reads, writes, None)
    } else {
        let (id, write) = terms[0];
        if !write && writes.contains(id) {
            (reads, writes, Some(AccessConflict::SharedAfterExclusive(id)))
        } else if write && reads.contains(id) {
            (reads, writes, Some(AccessConflict::ExclusiveAfterShared(id)))
        } else if write {
            record_terms(reads, writes.push(id), terms.drop_first())
        } else {
            record_terms(reads.push(id), writes, terms.drop_first())
        }
    }
}

/// `new` is `old` with `terms` recorded, and `r` reports the conflict that stopped it, if any.
pub open spec fn access_recorded(old: FilteredAccess, new: FilteredAccess, terms: Seq<(usize, bool)>, r: Result<(), AccessConflict>) -> bool {
    let (reads, writes, conflict) = record_terms(old.reads@, old.writes@, terms);
    &&& new.reads@ == reads
    &&& new.writes@ == writes
    &&& r == match conflict {
        Some(c) => Err::<(), AccessConflict>(c),
        None => Ok(()),
    }
}

/// Recording the terms of `a` and then those of `b` is recording those of `a + b`.
proof fn lemma_record_terms_append(reads: Seq<usize>, writes: Seq<usize>, a: Seq<(usize, bool)>, b: Seq<(usize, bool)>)
    ensures
        record_terms(reads, writes, a + b) == ({
            let first = record_terms(reads, writes, a);
            if first.2 is Some {
                first
            } else {
                record_terms(first.0, first.1, b)
            }
        }),
    decreases a.len(),
{
    if a.len() > 0 {
        assert((a + b).drop_first() =~= a.drop_first() + b);
        assert((a + b)[0] == a[0]);
        let (id, write) = a[0];
        if write {
            lemma_record_terms_append(reads, writes.push(id), a.drop_first(), b);
        } else {
            lemma_record_terms_append(reads.push(id), writes, a.drop_first(), b);
        }
    } else {
        assert(a + b =~= b);
    }
}

/// Recording one term.
proof fn lemma_record_one(reads: Seq<usize>, writes: Seq<usize>, id: usize, write: bool)
    ensures
        record_terms(reads, writes, seq![(id, write)]) == if !write && writes.contains(id) {
            (reads, writes, Some(AccessConflict::SharedAfterExclusive(id)))
        } else if write && reads.contains(id) {
            (reads, writes, Some(AccessConflict::ExclusiveAfterShared(id)))
        } else if write {
            (reads, writes.push(id), None::<AccessConflict>)
        } else {
            (reads.push(id), writes, None::<AccessConflict>)
        },
{
    let t = seq![(id, write)];
    assert(t.drop_first() =~= Seq::<(usize, bool)>::empty());
    reveal_with_fuel(record_terms, 2);
}

/// The cached state of a query term: which archetypes and tables it matches and which components
/// it accesses.
pub trait FetchState {
    /// Whether the term matches an archetype or table with the given columns, when `targets`
    /// gives the targets required of each relation type.
    spec fn spec_matches(&self, columns: Seq<(usize, Option<u64>)>, targets: spec_fn(TypeId) -> Seq<u64>) -> bool;

    /// The components the term reads (`(id, false)`) and writes (`(id, true)`), in the order it
    /// records them.
    spec fn spec_access(&self) -> Seq<(usize, bool)>;

    fn matches_columns(&self, columns: &Vec<(usize, Option<u64>)>, filter: &QueryRelationFilter, side: QuerySide) -> (r: bool)
        ensures
            r == self.spec_matches(columns@, targets_on(*filter, side)),
    ;

    /// Whether the term, on `side` of a query under `filter`, matches `archetype`.
    fn matches_archetype(&self, archetype: &Archetype, filter: &QueryRelationFilter, side: QuerySide) -> (r: bool)
        ensures
            r == self.spec_matches(archetype.columns@, targets_on(*filter, side)),
    {
        self.matches_columns(&archetype.columns, filter, side)
    }

    /// Whether the term, on `side` of a query under `filter`, matches `table`.
    fn matches_table(&self, table: &Table, filter: &QueryRelationFilter, side: QuerySide) -> (r: bool)
        ensures
            r == self.spec_matches(table.columns@, targets_on(*filter, side)),
    {
        self.matches_columns(&table.columns, filter, side)
    }

    /// The archetype components of `archetype` the term reads (`writes` false) or writes
    /// (`writes` true).
    spec fn spec_archetype_access(&self, archetype: Archetype, writes: bool) -> Set<usize>;

    /// Records what the term reads and writes of `archetype`.
    fn update_archetype_component_access(&self, archetype: &Archetype, access: &mut Access)
        requires
            old(access).wf(),
            archetype.wf(),
        ensures
            final(access).wf(),
            final(access).touched() == old(access).touched() + self.spec_archetype_access(*archetype, false)
                + self.spec_archetype_access(*archetype, true),
            final(access).written() == old(access).written() + self.spec_archetype_access(*archetype, true),
    ;

    /// Records the term's component access; refused at the first access that conflicts with one
    /// recorded before.
    fn update_component_access(&self, access: &mut FilteredAccess) -> (r: Result<(), AccessConflict>)
        ensures
            access_recorded(*old(access), *final(access), self.spec_access(), r),
    ;
}

/// A fetch that only reads.
pub trait ReadOnlyFetch {}

/// The state of a query for the entity itself: it matches every archetype and accesses nothing.
#[derive(Debug, Clone, Copy, PartialEq, Eq, Structural)]
pub struct EntityState;

/// The state of a query for an optional term: it matches every archetype, and accesses what the
/// inner term accesses.
#[derive(Debug)]
pub struct OptionState<S> {
    pub state: S,
}

impl FetchState for EntityState {
    open spec fn spec_matches(&self, columns: Seq<(usize, Option<u64>)>, targets: spec_fn(TypeId) -> Seq<u64>) -> bool {
        true
    }

    open spec fn spec_access(&self) -> Seq<(usize, bool)> {
        Seq::empty()
    }

    fn matches_columns(&self, columns: &Vec<(usize, Option<u64>)>, filter: &QueryRelationFilter, side: QuerySide) -> (r: bool) {
        true
    }

    open spec fn spec_archetype_access(&self, archetype: Archetype, writes: bool) -> Set<usize> {
        Set::empty()
    }

    fn update_archetype_component_access(&self, archetype: &Archetype, access: &mut Access) {
        assert(access.touched() + Set::<usize>::empty() + Set::<usize>::empty() =~= access.touched());
        assert(access.written() + Set::<usize>::empty() =~= access.written());
    }

    fn update_component_access(&self, access: &mut FilteredAccess) -> (r: Result<(), AccessConflict>) {
        Ok(())
    }
}

impl FetchState for ReadState {
    open spec fn spec_matches(&self, columns: Seq<(usize, Option<u64>)>, targets: spec_fn(TypeId) -> Seq<u64>) -> bool {
        columns_contain(columns, self.relation_kind_id.0, target_key(self.relation_target))
    }

    open spec fn spec_access(&self) -> Seq<(usize, bool)> {
        seq![(self.relation_kind_id.0, false)]
    }

    fn matches_columns(&self, columns: &Vec<(usize, Option<u64>)>, filter: &QueryRelationFilter, side: QuerySide) -> (r: bool) {
        contains_column(columns, self.relation_kind_id.0, pack_target(self.relation_target))
    }

    open spec fn spec_archetype_access(&self, archetype: Archetype, writes: bool) -> Set<usize> {
        if writes == false {
            selected_ids(archetype, self.relation_kind_id.0, Some(target_key(self.relation_target)), archetype.columns@.len() as int)
        } else {
            Set::empty()
        }
    }

    fn update_archetype_component_access(&self, archetype: &Archetype, access: &mut Access) {
        let ghost before = *access;
        add_selected(archetype, self.relation_kind_id.0, Some(pack_target(self.relation_target)), false, access);
        let ghost sel = selected_ids(*archetype, self.relation_kind_id.0, Some(target_key(self.relation_target)), archetype.columns@.len() as int);
        assert(before.touched() + sel + Set::<usize>::empty() =~= access.touched());
        assert(before.written() + Set::<usize>::empty() =~= access.written());
    }

    fn update_component_access(&self, access: &mut FilteredAccess) -> (r: Result<(), AccessConflict>) {
        proof {
            lemma_record_one(access.reads@, access.writes@, self.relation_kind_id.0, false);
        }
        access.add_read(self.relation_kind_id.0)
    }
}

impl FetchState for WriteState {
    open spec fn spec_matches(&self, columns: Seq<(usize, Option<u64>)>, targets: spec_fn(TypeId) -> Seq<u64>) -> bool {
        columns_contain(columns, self.relation_kind_id.0, target_key(self.relation_target))
    }

    open spec fn spec_access(&self) -> Seq<(usize, bool)> {
        seq![(self.relation_kind_id.0, true)]
    }

    fn matches_columns(&self, columns: &Vec<(usize, Option<u64>)>, filter: &QueryRelationFilter, side: QuerySide) -> (r: bool) {
        contains_column(columns, self.relation_kind_id.0, pack_target(self.relation_target))
    }

    open spec fn spec_archetype_access(&self, archetype: Archetype, writes: bool) -> Set<usize> {
        if writes == true {
            selected_ids(archetype, self.relation_kind_id.0, Some(target_key(self.relation_target)), archetype.columns@.len() as int)
        } else {
            Set::empty()
        }
    }

    fn update_archetype_component_access(&self, archetype: &Archetype, access: &mut Access) {
        let ghost before = *access;
        add_selected(archetype, self.relation_kind_id.0, Some(pack_target(self.relation_target)), true, access);
        let ghost sel = selected_ids(*archetype, self.relation_kind_id.0, Some(target_key(self.relation_target)), archetype.columns@.len() as int);
        assert(before.touched() + Set::<usize>::empty() + sel =~= access.touched());
        assert(before.written() + sel =~= access.written());
    }

    fn update_component_access(&self, access: &mut FilteredAccess) -> (r: Result<(), AccessConflict>) {
        proof {
            lemma_record_one(access.reads@, access.writes@, self.relation_kind_id.0, true);
        }
        access.add_write(self.relation_kind_id.0)
    }
}

impl FetchState for ChangeTrackersState {
    open spec fn spec_matches(&self, columns: Seq<(usize, Option<u64>)>, targets: spec_fn(TypeId) -> Seq<u64>) -> bool {
        columns_contain(columns, self.relation_kind_id.0, target_key(self.relation_target))
    }

    open spec fn spec_access(&self) -> Seq<(usize, bool)> {
        seq![(self.relation_kind_id.0, false)]
    }

    fn matches_columns(&self, columns: &Vec<(usize, Option<u64>)>, filter: &QueryRelationFilter, side: QuerySide) -> (r: bool) {
        contains_column(columns, self.relation_kind_id.0, pack_target(self.relation_target))
    }

    open spec fn spec_archetype_access(&self, archetype: Archetype, writes: bool) -> Set<usize> {
        if writes == false {
            selected_ids(archetype, self.relation_kind_id.0, Some(target_key(self.relation_target)), archetype.columns@.len() as int)
        } else {
            Set::empty()
        }
    }

    fn update_archetype_component_access(&self, archetype: &Archetype, access: &mut Access) {
        let ghost before = *access;
        add_selected(archetype, self.relation_kind_id.0, Some(pack_target(self.relation_target)), false, access);
        let ghost sel = selected_ids(*archetype, self.relation_kind_id.0, Some(target_key(self.relation_target)), archetype.columns@.len() as int);
        assert(before.touched() + sel + Set::<usize>::empty() =~= access.touched());
        assert(before.written() + Set::<usize>::empty() =~= access.written());
    }

    fn update_component_access(&self, access: &mut FilteredAccess) -> (r: Result<(), AccessConflict>) {
        proof {
            lemma_record_one(access.reads@, access.writes@, self.relation_kind_id.0, false);
        }
        access.add_read(self.relation_kind_id.0)
    }
}
impl FetchState for ReadRelationState {
    /// An archetype matches when it holds some relation of this kind and, for every target the
    /// filter requires of this relation type, the relation of this kind aimed at that target.
    open spec fn spec_matches(&self, columns: Seq<(usize, Option<u64>)>, targets: spec_fn(TypeId) -> Seq<u64>) -> bool {
        columns_have_kind(columns, self.relation_kind.0) && all_targets_present(columns, self.relation_kind.0, targets(self.relation_type))
    }

    open spec fn spec_access(&self) -> Seq<(usize, bool)> {
        seq![(self.relation_kind.0, false)]
    }

    fn matches_columns(&self, columns: &Vec<(usize, Option<u64>)>, filter: &QueryRelationFilter, side: QuerySide) -> (r: bool) {
        if !has_kind_column(columns, self.relation_kind.0) {
            return false;
        }
        let required = filter.required(side, &self.relation_type);
        assert(targets_on(*filter, side)(self.relation_type) == target_bits(required));
        let n = targets_len(&required);
        let mut i: usize = 0;
        while i < n
            invariant
                n == target_bits(required).len(),
                i <= n,
                targets_on(*filter, side)(self.relation_type) == target_bits(required),
                forall|j: int| 0 <= j < i ==> columns_contain(columns@, self.relation_kind.0, Some(#[trigger] target_bits(required)[j])),
            decreases n - i,
        {
            let t = targets_get(&required, i);
            if !contains_column(columns, self.relation_kind.0, Some(t)) {
                assert(!columns_contain(columns@, self.relation_kind.0, Some(targets_on(*filter, side)(self.relation_type)[i as int])));
                return false;
            }
            i += 1;
        }
        true
    }

    open spec fn spec_archetype_access(&self, archetype: Archetype, writes: bool) -> Set<usize> {
        if writes {
            Set::empty()
        } else {
            selected_ids(archetype, self.relation_kind.0, None, archetype.columns@.len() as int)
        }
    }

    /// Reads every column of this kind, when the archetype has one.
    fn update_archetype_component_access(&self, archetype: &Archetype, access: &mut Access) {
        let ghost before = *access;
        let ghost sel = selected_ids(*archetype, self.relation_kind.0, None, archetype.columns@.len() as int);
        let none = QueryRelationFilter::new();
        if self.matches_archetype(archetype, &none, QuerySide::Data) {
            add_selected(archetype, self.relation_kind.0, None, false, access);
        } else {
            assert(sel =~= Set::<usize>::empty()) by {
                assert forall|x: usize| !sel.contains(x) by {
                    if sel.contains(x) {
                        let k = choose|k: int| 0 <= k < archetype.columns@.len() as int && k < archetype.columns@.len() && k < archetype.component_ids@.len()
                            && selects(#[trigger] archetype.columns@[k], self.relation_kind.0, None) && archetype.component_ids@[k] == x;
                        assert(columns_have_kind(archetype.columns@, self.relation_kind.0));
                    }
                }
            }
        }
        assert(before.touched() + sel + Set::<usize>::empty() =~= access.touched());
        assert(before.written() + Set::<usize>::empty() =~= access.written());
    }

    fn update_component_access(&self, access: &mut FilteredAccess) -> (r: Result<(), AccessConflict>) {
        proof {
            lemma_record_one(access.reads@, access.writes@, self.relation_kind.0, false);
        }
        access.add_read(self.relation_kind.0)
    }
}

impl<S: FetchState> FetchState for OptionState<S> {
    open spec fn spec_matches(&self, columns: Seq<(usize, Option<u64>)>, targets: spec_fn(TypeId) -> Seq<u64>) -> bool {
        true
    }

    open spec fn spec_access(&self) -> Seq<(usize, bool)> {
        self.state.spec_access()
    }

    fn matches_columns(&self, columns: &Vec<(usize, Option<u64>)>, filter: &QueryRelationFilter, side: QuerySide) -> (r: bool) {
        true
    }

    open spec fn spec_archetype_access(&self, archetype: Archetype, writes: bool) -> Set<usize> {
        if self.state.spec_matches(archetype.columns@, no_targets()) {
            self.state.spec_archetype_access(archetype, writes)
        } else {
            Set::empty()
        }
    }

    /// Records the inner term's access, when the inner term matches the archetype with no target
    /// required.
    fn update_archetype_component_access(&self, archetype: &Archetype, access: &mut Access) {
        let none = QueryRelationFilter::new();
        proof {
            assert(targets_on(none, QuerySide::Data) =~= no_targets());
        }
        if self.state.matches_archetype(archetype, &none, QuerySide::Data) {
            self.state.update_archetype_component_access(archetype, access);
        } else {
            assert(access.touched() + Set::<usize>::empty() + Set::<usize>::empty() =~= access.touched());
            assert(access.written() + Set::<usize>::empty() =~= access.written());
        }
    }

    fn update_component_access(&self, access: &mut FilteredAccess) -> (r: Result<(), AccessConflict>) {
        self.state.update_component_access(access)
    }
}

/// The state of a query for no term: it matches everything and accesses nothing.
impl FetchState for () {
    open spec fn spec_matches(&self, columns: Seq<(usize, Option<u64>)>, targets: spec_fn(TypeId) -> Seq<u64>) -> bool {
        true
    }

    open spec fn spec_access(&self) -> Seq<(usize, bool)> {
        Seq::empty()
    }

    fn matches_columns(&self, columns: &Vec<(usize, Option<u64>)>, filter: &QueryRelationFilter, side: QuerySide) -> (r: bool) {
        true
    }

    open spec fn spec_archetype_access(&self, archetype: Archetype, writes: bool) -> Set<usize> {
        Set::empty()
    }

    fn update_archetype_component_access(&self, archetype: &Archetype, access: &mut Access) {
        assert(access.touched() + Set::<usize>::empty() + Set::<usize>::empty() =~= access.touched());
        assert(access.written() + Set::<usize>::empty() =~= access.written());
    }

    fn update_component_access(&self, access: &mut FilteredAccess) -> (r: Result<(), AccessConflict>) {
        Ok(())
    }
}

/// The state of a query for two terms: it matches what both match, and records the accesses of
/// the first term, then those of the second.
impl<A: FetchState, B: FetchState> FetchState for (A, B) {
    open spec fn spec_matches(&self, columns: Seq<(usize, Option<u64>)>, targets: spec_fn(TypeId) -> Seq<u64>) -> bool {
        self.0.spec_matches(columns, targets) && self.1.spec_matches(columns, targets)
    }

    open spec fn spec_access(&self) -> Seq<(usize, bool)> {
        self.0.spec_access() + self.1.spec_access()
    }

    fn matches_columns(&self, columns: &Vec<(usize, Option<u64>)>, filter: &QueryRelationFilter, side: QuerySide) -> (r: bool) {
        self.0.matches_columns(columns, filter, side) && self.1.matches_columns(columns, filter, side)
    }

    open spec fn spec_archetype_access(&self, archetype: Archetype, writes: bool) -> Set<usize> {
        self.0.spec_archetype_access(archetype, writes) + self.1.spec_archetype_access(archetype, writes)
    }

    fn update_archetype_component_access(&self, archetype: &Archetype, access: &mut Access) {
        let ghost before = *access;
        self.0.update_archetype_component_access(archetype, access);
        self.1.update_archetype_component_access(archetype, access);
        proof {
            let (ar, aw) = (self.0.spec_archetype_access(*archetype, false), self.0.spec_archetype_access(*archetype, true));
            let (br, bw) = (self.1.spec_archetype_access(*archetype, false), self.1.spec_archetype_access(*archetype, true));
            assert(access.touched() =~= before.touched() + (ar + br) + (aw + bw));
            assert(access.written() =~= before.written() + (aw + bw));
        }
    }

    fn update_component_access(&self, access: &mut FilteredAccess) -> (r: Result<(), AccessConflict>) {
        proof {
            lemma_record_terms_append(access.reads@, access.writes@, self.0.spec_access(), self.1.spec_access());
        }
        let first = self.0.update_component_access(access);
        if first.is_err() {
            return first;
        }
        self.1.update_component_access(access)
    }
}

/// The kind registered for the type of `descriptor` (registered now, from `descriptor`, when it
/// was not), with the storage type it was registered with.
fn kind_for(components: &mut Components, descriptor: ComponentDescriptor) -> (r: (RelationKindId, StorageType))
    requires
        old(components).wf(),
        old(components).kinds().len() < usize::MAX,
        descriptor.spec_type_id() is Some,
    ensures
        registered(*old(components), *final(components), descriptor),
        final(components).component_map().contains_key(descriptor.spec_type_id()->Some_0),
        r.0.0 == final(components).component_map()[descriptor.spec_type_id()->Some_0],
        r.0.0 < final(components).kinds().len(),
        r.1 == final(components).kinds()[r.0.0 as int].spec_data().spec_storage_type(),
{
    let ghost t = descriptor.spec_type_id()->Some_0;
    let info = components.get_component_kind_or_insert(descriptor);
    let id = info.id();
    let storage_type = info.data_layout().storage_type();
    proof {
        components.lemma_component_index(t);
        if !old(components).component_map().contains_key(t) {
            assert(components.kinds().drop_last() =~= old(components).kinds());
        } else {
            old(components).lemma_component_index(t);
        }
    }
    (id, storage_type)
}

/// `new` is `old` with the kind of the type of `descriptor` registered from `descriptor` when it
/// was not registered yet, and otherwise unchanged.
pub open spec fn registered(old: Components, new: Components, descriptor: ComponentDescriptor) -> bool {
    let t = descriptor.spec_type_id()->Some_0;
    &&& new.wf()
    &&& new.resource_map() == old.resource_map()
    &&& if old.component_map().contains_key(t) {
        new.kinds() == old.kinds() && new.component_map() == old.component_map()
    } else {
        &&& new.kinds().len() == old.kinds().len() + 1
        &&& new.kinds().drop_last() == old.kinds()
        &&& new.kinds().last().spec_data() == descriptor
        &&& new.component_map() == old.component_map().insert(t, old.kinds().len() as usize)
    }
}

impl ReadState {
    /// The state of a query for `&T`, where `descriptor` describes `T`: the kind registered for
    /// `T` (registered now when it was not), with no target.
    pub fn init(components: &mut Components, descriptor: ComponentDescriptor) -> (s: Self)
        requires
            old(components).wf(),
            old(components).kinds().len() < usize::MAX,
            descriptor.spec_type_id() is Some,
        ensures
            registered(*old(components), *final(components), descriptor),
            s.relation_kind_id.0 == final(components).component_map()[descriptor.spec_type_id()->Some_0],
            s.relation_target == None::<Entity>,
            s.storage_type == final(components).kinds()[s.relation_kind_id.0 as int].spec_data().spec_storage_type(),
    {
        let (relation_kind_id, storage_type) = kind_for(components, descriptor);
        ReadState { relation_kind_id, relation_target: None, storage_type }
    }
}

impl WriteState {
    /// The state of a query for `&mut T`, where `descriptor` describes `T`: the kind registered
    /// for `T` (registered now when it was not), with no target.
    pub fn init(components: &mut Components, descriptor: ComponentDescriptor) -> (s: Self)
        requires
            old(components).wf(),
            old(components).kinds().len() < usize::MAX,
            descriptor.spec_type_id() is Some,
        ensures
            registered(*old(components), *final(components), descriptor),
            s.relation_kind_id.0 == final(components).component_map()[descriptor.spec_type_id()->Some_0],
            s.relation_target == None::<Entity>,
            s.storage_type == final(components).kinds()[s.relation_kind_id.0 as int].spec_data().spec_storage_type(),
    {
        let (relation_kind_id, storage_type) = kind_for(components, descriptor);
        WriteState { relation_kind_id, relation_target: None, storage_type }
    }
}

impl ChangeTrackersState {
    /// The state of a query for `ChangeTrackers<T>`, where `descriptor` describes `T`: the kind
    /// registered for `T` (registered now when it was not), with no target.
    pub fn init(components: &mut Components, descriptor: ComponentDescriptor) -> (s: Self)
        requires
            old(components).wf(),
            old(components).kinds().len() < usize::MAX,
            descriptor.spec_type_id() is Some,
        ensures
            registered(*old(components), *final(components), descriptor),
            s.relation_kind_id.0 == final(components).component_map()[descriptor.spec_type_id()->Some_0],
            s.relation_target == None::<Entity>,
            s.storage_type == final(components).kinds()[s.relation_kind_id.0 as int].spec_data().spec_storage_type(),
    {
        let (relation_kind_id, storage_type) = kind_for(components, descriptor);
        ChangeTrackersState { relation_kind_id, relation_target: None, storage_type }
    }
}

impl ReadRelationState {
    /// The state of a query for `&Relation<K>`, where `descriptor` describes `K`: the kind
    /// registered for `K` (registered now when it was not).
    pub fn init(components: &mut Components, descriptor: ComponentDescriptor) -> (s: Self)
        requires
            old(components).wf(),
            old(components).kinds().len() < usize::MAX,
            descriptor.spec_type_id() is Some,
        ensures
            registered(*old(components), *final(components), descriptor),
            s.relation_type == descriptor.spec_type_id()->Some_0,
            s.relation_kind.0 == final(components).component_map()[descriptor.spec_type_id()->Some_0],
            s.storage_type == final(components).kinds()[s.relation_kind.0 as int].spec_data().spec_storage_type(),
    {
        let relation_type = descriptor.type_id().unwrap();
        let (relation_kind, storage_type) = kind_for(components, descriptor);
        ReadRelationState { relation_type, relation_kind, storage_type }
    }
}

/// Where the component a fetch yields is stored: at a row of the current table, or in the
/// sparse set under an entity.
#[derive(Debug, Clone, Copy, PartialEq, Eq, Structural)]
pub enum ComponentLocation {
    TableRow(usize),
    Sparse(Entity),
}

/// Yields, for each entity of the current archetype or table, an item of the query.
pub trait Fetch {
    type Item;

    /// Whether the fetch iterates tables (dense) rather than archetypes.
    spec fn spec_dense(&self) -> bool;

    /// Whether `archetype_index` can be fetched from the current archetype.
    spec fn archetype_ready(&self, archetype_index: usize) -> bool;

    /// The item at `archetype_index` of the current archetype.
    spec fn spec_archetype_item(&self, archetype_index: usize) -> Self::Item;

    /// Whether `table_row` can be fetched from the current table.
    spec fn table_ready(&self, table_row: usize) -> bool;

    /// The item at `table_row` of the current table.
    spec fn spec_table_item(&self, table_row: usize) -> Self::Item;

    fn is_dense(&self) -> (r: bool)
        ensures
            r == self.spec_dense(),
    ;

    fn archetype_fetch(&self, archetype_index: usize) -> (r: Self::Item)
        requires
            self.archetype_ready(archetype_index),
        ensures
            r == self.spec_archetype_item(archetype_index),
    ;

    fn table_fetch(&self, table_row: usize) -> (r: Self::Item)
        requires
            self.table_ready(table_row),
        ensures
            r == self.spec_table_item(table_row),
    ;
}

/// Fetches the entities of the current archetype or table.
#[derive(Debug)]
pub struct EntityFetch {
    pub entities: Vec<Entity>,
}

impl EntityFetch {
    /// A fetch with no archetype or table set yet.
    pub fn new() -> (f: Self)
        ensures
            f.entities@.len() == 0,
    {
        EntityFetch { entities: Vec::new() }
    }

    /// Points the fetch at the entities of an archetype or a table.
    pub fn set_entities(&mut self, entities: Vec<Entity>)
        ensures
            final(self).entities@ == entities@,
    {
        self.entities = entities;
    }
}

impl ReadOnlyFetch for EntityFetch {}

impl Fetch for EntityFetch {
    type Item = Entity;

    open spec fn spec_dense(&self) -> bool {
        true
    }

    open spec fn archetype_ready(&self, archetype_index: usize) -> bool {
        archetype_index < self.entities@.len()
    }

    open spec fn spec_archetype_item(&self, archetype_index: usize) -> Entity {
        self.entities@[archetype_index as int]
    }

    open spec fn table_ready(&self, table_row: usize) -> bool {
        table_row < self.entities@.len()
    }

    open spec fn spec_table_item(&self, table_row: usize) -> Entity {
        self.entities@[table_row as int]
    }

    fn is_dense(&self) -> (r: bool) {
        true
    }

    fn archetype_fetch(&self, archetype_index: usize) -> (r: Entity) {
        self.entities[archetype_index]
    }

    fn table_fetch(&self, table_row: usize) -> (r: Entity) {
        self.entities[table_row]
    }
}

/// Where a component lives for one entity of an archetype: in the table at the entity's row
/// when table-stored, in the sparse set under the entity otherwise.
pub open spec fn located(storage_type: StorageType, entity_table_rows: Seq<usize>, entities: Seq<Entity>, i: int) -> ComponentLocation {
    match storage_type {
        StorageType::Table => ComponentLocation::TableRow(entity_table_rows[i]),
        StorageType::SparseSet => ComponentLocation::Sparse(entities[i]),
    }
}

/// Whether index `i` of an archetype can be located.
pub open spec fn locatable(storage_type: StorageType, entity_table_rows: Seq<usize>, entities: Seq<Entity>, i: int) -> bool {
    match storage_type {
        StorageType::Table => 0 <= i < entity_table_rows.len(),
        StorageType::SparseSet => 0 <= i < entities.len(),
    }
}

fn locate(storage_type: StorageType, entity_table_rows: &Vec<usize>, entities: &Vec<Entity>, i: usize) -> (r: ComponentLocation)
    requires
        locatable(storage_type, entity_table_rows@, entities@, i as int),
    ensures
        r == located(storage_type, entity_table_rows@, entities@, i as int),
{
    match storage_type {
        StorageType::Table => ComponentLocation::TableRow(entity_table_rows[i]),
        StorageType::SparseSet => ComponentLocation::Sparse(entities[i]),
    }
}

/// Fetches shared access to one component.
#[derive(Debug)]
pub struct ReadFetch {
    pub storage_type: StorageType,
    pub entity_table_rows: Vec<usize>,
    pub entities: Vec<Entity>,
}

/// Fetches exclusive access to one component, with the ticks its changes are recorded against.
#[derive(Debug)]
pub struct WriteFetch {
    pub storage_type: StorageType,
    pub entity_table_rows: Vec<usize>,
    pub entities: Vec<Entity>,
    pub last_change_tick: u32,
    pub change_tick: u32,
}

/// Fetches the change ticks of one component, with the ticks they are compared against.
#[derive(Debug)]
pub struct ChangeTrackersFetch {
    pub storage_type: StorageType,
    pub entity_table_rows: Vec<usize>,
    pub entities: Vec<Entity>,
    pub last_change_tick: u32,
    pub change_tick: u32,
}

impl ReadFetch {
    /// A fetch for the state's storage, with no archetype set yet.
    pub fn init(state: &ReadState) -> (f: Self)
        ensures
            f.storage_type == state.storage_type,
            f.entity_table_rows@.len() == 0,
            f.entities@.len() == 0,
    {
        ReadFetch { storage_type: state.storage_type, entity_table_rows: Vec::new(), entities: Vec::new() }
    }

    /// Points the fetch at an archetype: its table rows when table-stored, its entities when
    /// sparse.
    pub fn set_archetype(&mut self, entity_table_rows: Vec<usize>, entities: Vec<Entity>)
        ensures
            final(self).storage_type == old(self).storage_type,
            final(self).storage_type == StorageType::Table ==> final(self).entity_table_rows@ == entity_table_rows@ && final(self).entities@ == old(self).entities@,
            final(self).storage_type == StorageType::SparseSet ==> final(self).entities@ == entities@ && final(self).entity_table_rows@ == old(self).entity_table_rows@,
    {
        match self.storage_type {
            StorageType::Table => self.entity_table_rows = entity_table_rows,
            StorageType::SparseSet => self.entities = entities,
        }
    }
}

impl ReadOnlyFetch for ReadFetch {}

impl Fetch for ReadFetch {
    type Item = ComponentLocation;

    open spec fn spec_dense(&self) -> bool {
        self.storage_type == StorageType::Table
    }

    open spec fn archetype_ready(&self, archetype_index: usize) -> bool {
        locatable(self.storage_type, self.entity_table_rows@, self.entities@, archetype_index as int)
    }

    open spec fn spec_archetype_item(&self, archetype_index: usize) -> ComponentLocation {
        located(self.storage_type, self.entity_table_rows@, self.entities@, archetype_index as int)
    }

    open spec fn table_ready(&self, table_row: usize) -> bool {
        true
    }

    open spec fn spec_table_item(&self, table_row: usize) -> ComponentLocation {
        ComponentLocation::TableRow(table_row)
    }

    fn is_dense(&self) -> (r: bool) {
        match self.storage_type {
            StorageType::Table => true,
            StorageType::SparseSet => false,
        }
    }

    fn archetype_fetch(&self, archetype_index: usize) -> (r: ComponentLocation) {
        locate(self.storage_type, &self.entity_table_rows, &self.entities, archetype_index)
    }

    fn table_fetch(&self, table_row: usize) -> (r: ComponentLocation) {
        ComponentLocation::TableRow(table_row)
    }
}

impl WriteFetch {
    /// A fetch for the state's storage recording changes at `change_tick`, with no archetype
    /// set yet.
    pub fn init(state: &WriteState, last_change_tick: u32, change_tick: u32) -> (f: Self)
        ensures
            f.storage_type == state.storage_type,
            f.entity_table_rows@.len() == 0,
            f.entities@.len() == 0,
            f.last_change_tick == last_change_tick,
            f.change_tick == change_tick,
    {
        WriteFetch {
            storage_type: state.storage_type,
            entity_table_rows: Vec::new(),
            entities: Vec::new(),
            last_change_tick,
            change_tick,
        }
    }

    /// Points the fetch at an archetype: its table rows when table-stored, its entities when
    /// sparse.
    pub fn set_archetype(&mut self, entity_table_rows: Vec<usize>, entities: Vec<Entity>)
        ensures
            final(self).storage_type == old(self).storage_type,
            final(self).last_change_tick == old(self).last_change_tick,
            final(self).change_tick == old(self).change_tick,
            final(self).storage_type == StorageType::Table ==> final(self).entity_table_rows@ == entity_table_rows@ && final(self).entities@ == old(self).entities@,
            final(self).storage_type == StorageType::SparseSet ==> final(self).entities@ == entities@ && final(self).entity_table_rows@ == old(self).entity_table_rows@,
    {
        match self.storage_type {
            StorageType::Table => self.entity_table_rows = entity_table_rows,
            StorageType::SparseSet => self.entities = entities,
        }
    }
}

impl Fetch for WriteFetch {
    /// Where the component is, with the last change tick and the change tick its change is
    /// recorded at.
    type Item = (ComponentLocation, u32, u32);

    open spec fn spec_dense(&self) -> bool {
        self.storage_type == StorageType::Table
    }

    open spec fn archetype_ready(&self, archetype_index: usize) -> bool {
        locatable(self.storage_type, self.entity_table_rows@, self.entities@, archetype_index as int)
    }

    open spec fn spec_archetype_item(&self, archetype_index: usize) -> (ComponentLocation, u32, u32) {
        (located(self.storage_type, self.entity_table_rows@, self.entities@, archetype_index as int), self.last_change_tick, self.change_tick)
    }

    open spec fn table_ready(&self, table_row: usize) -> bool {
        true
    }

    open spec fn spec_table_item(&self, table_row: usize) -> (ComponentLocation, u32, u32) {
        (ComponentLocation::TableRow(table_row), self.last_change_tick, self.change_tick)
    }

    fn is_dense(&self) -> (r: bool) {
        match self.storage_type {
            StorageType::Table => true,
            StorageType::SparseSet => false,
        }
    }

    fn archetype_fetch(&self, archetype_index: usize) -> (r: (ComponentLocation, u32, u32)) {
        (locate(self.storage_type, &self.entity_table_rows, &self.entities, archetype_index), self.last_change_tick, self.change_tick)
    }

    fn table_fetch(&self, table_row: usize) -> (r: (ComponentLocation, u32, u32)) {
        (ComponentLocation::TableRow(table_row), self.last_change_tick, self.change_tick)
    }
}

impl ChangeTrackersFetch {
    /// A fetch for the state's storage comparing against `last_change_tick` and `change_tick`,
    /// with no archetype set yet.
    pub fn init(state: &ChangeTrackersState, last_change_tick: u32, change_tick: u32) -> (f: Self)
        ensures
            f.storage_type == state.storage_type,
            f.entity_table_rows@.len() == 0,
            f.entities@.len() == 0,
            f.last_change_tick == last_change_tick,
            f.change_tick == change_tick,
    {
        ChangeTrackersFetch {
            storage_type: state.storage_type,
            entity_table_rows: Vec::new(),
            entities: Vec::new(),
            last_change_tick,
            change_tick,
        }
    }

    /// Points the fetch at an archetype: its table rows when table-stored, its entities when
    /// sparse.
    pub fn set_archetype(&mut self, entity_table_rows: Vec<usize>, entities: Vec<Entity>)
        ensures
            final(self).storage_type == old(self).storage_type,
            final(self).last_change_tick == old(self).last_change_tick,
            final(self).change_tick == old(self).change_tick,
            final(self).storage_type == StorageType::Table ==> final(self).entity_table_rows@ == entity_table_rows@ && final(self).entities@ == old(self).entities@,
            final(self).storage_type == StorageType::SparseSet ==> final(self).entities@ == entities@ && final(self).entity_table_rows@ == old(self).entity_table_rows@,
    {
        match self.storage_type {
            StorageType::Table => self.entity_table_rows = entity_table_rows,
            StorageType::SparseSet => self.entities = entities,
        }
    }
}

impl ReadOnlyFetch for ChangeTrackersFetch {}

impl Fetch for ChangeTrackersFetch {
    /// Where the change ticks are, with the ticks they are compared against.
    type Item = (ComponentLocation, u32, u32);

    open spec fn spec_dense(&self) -> bool {
        self.storage_type == StorageType::Table
    }

    open spec fn archetype_ready(&self, archetype_index: usize) -> bool {
        locatable(self.storage_type, self.entity_table_rows@, self.entities@, archetype_index as int)
    }

    open spec fn spec_archetype_item(&self, archetype_index: usize) -> (ComponentLocation, u32, u32) {
        (located(self.storage_type, self.entity_table_rows@, self.entities@, archetype_index as int), self.last_change_tick, self.change_tick)
    }

    open spec fn table_ready(&self, table_row: usize) -> bool {
        true
    }

    open spec fn spec_table_item(&self, table_row: usize) -> (ComponentLocation, u32, u32) {
        (ComponentLocation::TableRow(table_row), self.last_change_tick, self.change_tick)
    }

    fn is_dense(&self) -> (r: bool) {
        match self.storage_type {
            StorageType::Table => true,
            StorageType::SparseSet => false,
        }
    }

    fn archetype_fetch(&self, archetype_index: usize) -> (r: (ComponentLocation, u32, u32)) {
        (locate(self.storage_type, &self.entity_table_rows, &self.entities, archetype_index), self.last_change_tick, self.change_tick)
    }

    fn table_fetch(&self, table_row: usize) -> (r: (ComponentLocation, u32, u32)) {
        (ComponentLocation::TableRow(table_row), self.last_change_tick, self.change_tick)
    }
}

/// Fetches an optional term: the inner item where the inner term matches the current archetype
/// or table, nothing elsewhere.
#[derive(Debug)]
pub struct OptionFetch<F> {
    pub fetch: F,
    pub matches: bool,
}

impl<F> OptionFetch<F> {
    /// An optional fetch around `fetch`, matching nothing until an archetype is set.
    pub fn init(fetch: F) -> (f: Self)
        ensures
            f.fetch == fetch,
            !f.matches,
    {
        OptionFetch { fetch, matches: false }
    }

    /// Records whether the inner term matches the current archetype or table.
    pub fn set_matches(&mut self, matches: bool)
        ensures
            final(self).matches == matches,
            final(self).fetch == old(self).fetch,
    {
        self.matches = matches;
    }
}

impl<F: ReadOnlyFetch> ReadOnlyFetch for OptionFetch<F> {}

impl<F: Fetch> Fetch for OptionFetch<F> {
    type Item = Option<F::Item>;

    open spec fn spec_dense(&self) -> bool {
        self.fetch.spec_dense()
    }

    open spec fn archetype_ready(&self, archetype_index: usize) -> bool {
        self.matches ==> self.fetch.archetype_ready(archetype_index)
    }

    open spec fn spec_archetype_item(&self, archetype_index: usize) -> Option<F::Item> {
        if self.matches {
            Some(self.fetch.spec_archetype_item(archetype_index))
        } else {
            None
        }
    }

    open spec fn table_ready(&self, table_row: usize) -> bool {
        self.matches ==> self.fetch.table_ready(table_row)
    }

    open spec fn spec_table_item(&self, table_row: usize) -> Option<F::Item> {
        if self.matches {
            Some(self.fetch.spec_table_item(table_row))
        } else {
            None
        }
    }

    fn is_dense(&self) -> (r: bool) {
        self.fetch.is_dense()
    }

    fn archetype_fetch(&self, archetype_index: usize) -> (r: Option<F::Item>) {
        if self.matches {
            Some(self.fetch.archetype_fetch(archetype_index))
        } else {
            None
        }
    }

    fn table_fetch(&self, table_row: usize) -> (r: Option<F::Item>) {
        if self.matches {
            Some(self.fetch.table_fetch(table_row))
        } else {
            None
        }
    }
}

/// Fetches the relations of one kind; whether it iterates tables follows the kind's storage.
#[derive(Debug, Clone, Copy, PartialEq, Eq, Structural)]
pub struct ReadRelationFetch {
    pub storage_type: StorageType,
}

impl ReadRelationFetch {
    pub fn init(state: &ReadRelationState) -> (f: Self)
        ensures
            f.storage_type == state.storage_type,
    {
        ReadRelationFetch { storage_type: state.storage_type }
    }

    pub fn is_dense(&self) -> (r: bool)
        ensures
            r == (self.storage_type == StorageType::Table),
    {
        match self.storage_type {
            StorageType::Table => true,
            StorageType::SparseSet => false,
        }
    }
}

impl ReadOnlyFetch for ReadRelationFetch {}

/// The item a relation query yields.
#[derive(Debug, Clone, Copy, PartialEq, Eq, Structural)]
pub struct RelationAccess;

/// Names, in a query, the relations of one kind.
#[derive(Debug, Clone, Copy, PartialEq, Eq, Structural)]
pub struct Relation;


/// Whether `columns` hold a column of component kind `kind` aimed at `target` (none when the
/// component is not a relation).
pub open spec fn holds_column(columns: Seq<(usize, Option<u64>)>, kind: usize, target: Option<Entity>) -> bool {
    exists|i: int| 0 <= i < columns.len() && (#[trigger] columns[i]).0 == kind && columns[i].1 == match target {
        Some(e) => Some(e.spec_bits()),
        None => None,
    }
}

/// A query for the change trackers of a component, for reading it, or for writing it, matches an
/// archetype or table exactly when that holds a column of the component (aimed at the term's
/// target): the three match the same storages, whatever the relation filter.
pub proof fn law_component_terms_match_holders(
    kind: RelationKindId,
    target: Option<Entity>,
    storage_type: StorageType,
    columns: Seq<(usize, Option<u64>)>,
    targets: spec_fn(TypeId) -> Seq<u64>,
)
    ensures
        (ChangeTrackersState { relation_kind_id: kind, relation_target: target, storage_type }).spec_matches(columns, targets)
            <==> holds_column(columns, kind.0, target),
        (ReadState { relation_kind_id: kind, relation_target: target, storage_type }).spec_matches(columns, targets)
            <==> holds_column(columns, kind.0, target),
        (WriteState { relation_kind_id: kind, relation_target: target, storage_type }).spec_matches(columns, targets)
            <==> holds_column(columns, kind.0, target),
{
    let key = match target {
        Some(e) => Some(e.spec_bits()),
        None => None,
    };
    if holds_column(columns, kind.0, target) {
        let i = choose|i: int| 0 <= i < columns.len() && (#[trigger] columns[i]).0 == kind.0 && columns[i].1 == key;
        assert(columns[i] == (kind.0, key));
    }
    if columns.contains((kind.0, key)) {
        let i = choose|i: int| 0 <= i < columns.len() && columns[i] == (kind.0, key);
        assert(columns[i].0 == kind.0 && columns[i].1 == key);
    }
}

} // verus!

