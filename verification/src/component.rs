use vstd::prelude::*;
use std::alloc::Layout;
use std::any::TypeId;

verus! {

/// The type identifier of std, carried through as an opaque value.
#[verifier::external_type_specification]
#[verifier::external_body]
pub struct ExTypeId(TypeId);

/// The memory layout of std, carried through as an opaque value.
#[verifier::external_type_specification]
#[verifier::external_body]
pub struct ExLayout(Layout);

/// Calls `TypeId::of::<T>()`. Nothing is stated of the identifier it returns.
#[verifier::external_body]
fn type_id_of<T: ?Sized + 'static>() -> TypeId {
    TypeId::of::<T>()
}

/// Calls `Layout::new::<T>()`. Nothing is stated of the layout.
#[verifier::external_body]
fn layout_of<T>() -> Layout {
    Layout::new::<T>()
}

/// Calls `PartialEq::eq` on two `TypeId`s: std documents that two identifiers compare equal
/// exactly when they identify the same type, that is, when they are the same value.
#[verifier::external_body]
pub fn type_id_eq(a: &TypeId, b: &TypeId) -> (r: bool)
    ensures
        r == (*a == *b),
{
    *a == *b
}

/// A type whose values can be stored in a world.
pub trait Component: Send + Sync + 'static {}

impl<T: Send + Sync + 'static> Component for T {}

/// Where a component's data is kept.
#[derive(Debug, Copy, Clone, PartialEq, Eq, Structural)]
pub enum StorageType {
    Table,
    SparseSet,
}

impl Default for StorageType {
    fn default() -> (s: Self)
        ensures
            s == StorageType::Table,
    {
        StorageType::Table
    }
}

/// What the world knows about one kind of component or relation.
#[derive(Debug)]
pub struct ComponentDescriptor {
    name: String,
    storage_type: StorageType,
    is_send_and_sync: bool,
    type_id: Option<TypeId>,
    layout: Layout,
}

impl ComponentDescriptor {
    pub closed spec fn spec_name(&self) -> Seq<char> {
        self.name@
    }

    pub closed spec fn spec_storage_type(&self) -> StorageType {
        self.storage_type
    }

    pub closed spec fn spec_is_send_and_sync(&self) -> bool {
        self.is_send_and_sync
    }

    pub closed spec fn spec_type_id(&self) -> Option<TypeId> {
        self.type_id
    }

    pub closed spec fn spec_layout(&self) -> Layout {
        self.layout
    }

    /// A descriptor for a component kind that is not a Rust type: it has no type id, and
    /// an absent name becomes the empty string.
    pub fn new_dynamic(
        name: Option<String>,
        storage_type: StorageType,
        is_send_and_sync: bool,
        layout: Layout,
    ) -> (d: Self)
        ensures
            d.spec_name() == (match name {
                Some(n) => n@,
                None => Seq::<char>::empty(),
            }),
            d.spec_storage_type() == storage_type,
            d.spec_is_send_and_sync() == is_send_and_sync,
            d.spec_type_id() == None::<TypeId>,
            d.spec_layout() == layout,
    {
        let name = match name {
            Some(n) => n,
            None => String::new(),
        };
        Self { name, storage_type, is_send_and_sync, type_id: None, layout }
    }

    /// A descriptor for the `Send + Sync` Rust type `T`, laid out as `T`, under the given
    /// type name.
    pub fn new<T: Send + Sync + 'static>(name: String, storage_type: StorageType) -> (d: Self)
        ensures
            d.spec_name() == name@,
            d.spec_storage_type() == storage_type,
            d.spec_is_send_and_sync(),
            d.spec_type_id() is Some,
    {
        Self {
            name,
            storage_type,
            is_send_and_sync: true,
            type_id: Some(type_id_of::<T>()),
            layout: layout_of::<T>(),
        }
    }

    /// A descriptor for the Rust type `T`, which may not be sent or shared across threads,
    /// under the given type name.
    pub fn new_non_send_sync<T: 'static>(name: String, storage_type: StorageType) -> (d: Self)
        ensures
            d.spec_name() == name@,
            d.spec_storage_type() == storage_type,
            !d.spec_is_send_and_sync(),
            d.spec_type_id() is Some,
    {
        Self {
            name,
            storage_type,
            is_send_and_sync: false,
            type_id: Some(type_id_of::<T>()),
            layout: layout_of::<T>(),
        }
    }

    pub fn name(&self) -> (n: &str)
        ensures
            n@ == self.spec_name(),
    {
        self.name.as_str()
    }

    pub fn type_id(&self) -> (t: Option<TypeId>)
        ensures
            t == self.spec_type_id(),
    {
        self.type_id
    }

    pub fn layout(&self) -> (l: Layout)
        ensures
            l == self.spec_layout(),
    {
        self.layout
    }

    pub fn storage_type(&self) -> (s: StorageType)
        ensures
            s == self.spec_storage_type(),
    {
        self.storage_type
    }

    pub fn is_send_and_sync(&self) -> (b: bool)
        ensures
            b == self.spec_is_send_and_sync(),
    {
        self.is_send_and_sync
    }
}

/// The index of a relation kind in the world's registry.
#[derive(Debug, Copy, Clone, PartialEq, Eq, Structural, Hash)]
pub struct RelationKindId(pub usize);

impl RelationKindId {
    pub fn sparse_set_index(&self) -> (i: usize)
        ensures
            i == self.0,
    {
        self.0
    }

    pub fn get_sparse_set_index(value: usize) -> (id: Self)
        ensures
            id.0 == value,
    {
        Self(value)
    }
}

/// A registered relation kind: its descriptor and its id.
#[derive(Debug)]
pub struct RelationKindInfo {
    data: ComponentDescriptor,
    id: RelationKindId,
}

impl RelationKindInfo {
    pub closed spec fn spec_data(&self) -> &ComponentDescriptor {
        &self.data
    }

    pub closed spec fn spec_id(&self) -> RelationKindId {
        self.id
    }

    pub fn data_layout(&self) -> (d: &ComponentDescriptor)
        ensures
            d == self.spec_data(),
    {
        &self.data
    }

    pub fn id(&self) -> (id: RelationKindId)
        ensures
            id == self.spec_id(),
    {
        self.id
    }
}

/// Why a kind could not be registered.
#[derive(Debug)]
pub enum RelationsError {
    ComponentAlreadyExists { type_id: TypeId, name: String },
    ResourceAlreadyExists { type_id: TypeId, name: String },
}

/// The registry of relation kinds. Component and resource kinds are also found by type id.
#[derive(Debug)]
pub struct Components {
    kinds: Vec<RelationKindInfo>,
    component_indices: Vec<(TypeId, RelationKindId)>,
    resource_indices: Vec<(TypeId, RelationKindId)>,
}

/// Whether `type_id` is a key of the association list `entries`.
pub open spec fn has_key(entries: Seq<(TypeId, RelationKindId)>, type_id: TypeId) -> bool {
    exists|i: int| 0 <= i < entries.len() && (#[trigger] entries[i]).0 == type_id
}

/// The map that an association list without repeated keys stands for.
pub open spec fn as_map(entries: Seq<(TypeId, RelationKindId)>) -> Map<TypeId, usize> {
    Map::new(
        |t: TypeId| has_key(entries, t),
        |t: TypeId| entries[choose|i: int| 0 <= i < entries.len() && (#[trigger] entries[i]).0 == t].1.0,
    )
}

pub open spec fn unique_keys(entries: Seq<(TypeId, RelationKindId)>) -> bool {
    forall|i: int, j: int|
        0 <= i < entries.len() && 0 <= j < entries.len() && i != j ==> (#[trigger] entries[i]).0
            != (#[trigger] entries[j]).0
}

impl Components {
    /// The kinds in registration order.
    pub closed spec fn kinds(&self) -> Seq<RelationKindInfo> {
        self.kinds@
    }

    /// Component type id to kind index.
    pub closed spec fn component_map(&self) -> Map<TypeId, usize> {
        as_map(self.component_indices@)
    }

    /// Resource type id to kind index.
    pub closed spec fn resource_map(&self) -> Map<TypeId, usize> {
        as_map(self.resource_indices@)
    }

    pub closed spec fn index_list_wf(&self, entries: Seq<(TypeId, RelationKindId)>) -> bool {
        &&& unique_keys(entries)
        &&& forall|i: int|
            0 <= i < entries.len() ==> {
                let e = #[trigger] entries[i];
                &&& e.1.0 < self.kinds@.len()
                &&& self.kinds@[e.1.0 as int].data.type_id == Some(e.0)
            }
    }

    /// Every kind records its own position as its id, and every type id points at a kind of
    /// that type.
    pub closed spec fn wf(&self) -> bool {
        &&& forall|i: int| 0 <= i < self.kinds@.len() ==> (#[trigger] self.kinds@[i]).id.0 == i
        &&& self.index_list_wf(self.component_indices@)
        &&& self.index_list_wf(self.resource_indices@)
    }

    pub fn new() -> (c: Self)
        ensures
            c.wf(),
            c.kinds().len() == 0,
            c.component_map().is_empty(),
            c.resource_map().is_empty(),
    {
        let c = Components {
            kinds: Vec::new(),
            component_indices: Vec::new(),
            resource_indices: Vec::new(),
        };
        assert(c.component_map() =~= Map::empty());
        assert(c.resource_map() =~= Map::empty());
        c
    }

    fn find(entries: &Vec<(TypeId, RelationKindId)>, type_id: &TypeId) -> (r: Option<usize>)
        requires
            unique_keys(entries@),
        ensures
            match r {
                Some(k) => has_key(entries@, *type_id) && as_map(entries@)[*type_id] == k,
                None => !has_key(entries@, *type_id),
            },
    {
        let mut i: usize = 0;
        while i < entries.len()
            invariant
                i <= entries.len(),
                unique_keys(entries@),
                forall|j: int| 0 <= j < i ==> (#[trigger] entries@[j]).0 != *type_id,
            decreases entries.len() - i,
        {
            if type_id_eq(&entries[i].0, type_id) {
                let ghost c = choose|j: int| 0 <= j < entries@.len() && (#[trigger] entries@[j]).0 == *type_id;
                assert(entries@[i as int].0 == *type_id);
                assert(c == i);
                return Some(entries[i].1.0);
            }
            i += 1;
        }
        None
    }

    proof fn lemma_push_entry(entries: Seq<(TypeId, RelationKindId)>, t: TypeId, id: RelationKindId)
        requires
            unique_keys(entries),
            !has_key(entries, t),
        ensures
            unique_keys(entries.push((t, id))),
            as_map(entries.push((t, id))) =~= as_map(entries).insert(t, id.0),
    {
        let n = entries.push((t, id));
        assert forall|k: TypeId| #[trigger] has_key(n, k) == (has_key(entries, k) || k == t) by {
            if has_key(entries, k) {
                let i = choose|i: int| 0 <= i < entries.len() && (#[trigger] entries[i]).0 == k;
                assert(n[i].0 == k);
            }
            if k == t {
                assert(n[entries.len() as int].0 == k);
            }
        }
        assert forall|k: TypeId| #[trigger] has_key(n, k) implies as_map(n)[k] == as_map(
            entries,
        ).insert(t, id.0)[k] by {
            let c = choose|i: int| 0 <= i < n.len() && (#[trigger] n[i]).0 == k;
            if k == t {
                assert(c == entries.len());
            } else {
                let c2 = choose|i: int| 0 <= i < entries.len() && (#[trigger] entries[i]).0 == k;
                assert(n[c2].0 == k);
                assert(c == c2);
            }
        }
    }

    /// Registers a kind that no type id refers to.
    pub fn new_relation_kind(&mut self, layout: ComponentDescriptor) -> (info: &RelationKindInfo)
        requires
            old(self).wf(),
            old(self).kinds().len() < usize::MAX,
        ensures
            final(self).wf(),
            final(self).kinds().len() == old(self).kinds().len() + 1,
            final(self).kinds().drop_last() == old(self).kinds(),
            final(self).kinds().last().spec_id().0 == old(self).kinds().len(),
            final(self).kinds().last().spec_data() == layout,
            final(self).component_map() == old(self).component_map(),
            final(self).resource_map() == old(self).resource_map(),
            *info == final(self).kinds().last(),
    {
        let id = RelationKindId(self.kinds.len());
        self.kinds.push(RelationKindInfo { data: layout, id });
        assert(self.kinds@.drop_last() =~= old(self).kinds@);
        let n = self.kinds.len();
        &self.kinds[n - 1]
    }

    /// Registers the component kind of `layout`'s type. The type must have a type id and not
    /// be registered as a component yet.
    pub fn new_component_kind(&mut self, layout: ComponentDescriptor) -> (info: &RelationKindInfo)
        requires
            old(self).wf(),
            old(self).kinds().len() < usize::MAX,
            layout.spec_type_id() is Some,
            !old(self).component_map().contains_key(layout.spec_type_id()->Some_0),
        ensures
            final(self).wf(),
            final(self).kinds().len() == old(self).kinds().len() + 1,
            final(self).kinds().drop_last() == old(self).kinds(),
            final(self).kinds().last().spec_id().0 == old(self).kinds().len(),
            final(self).kinds().last().spec_data() == layout,
            final(self).component_map() == old(self).component_map().insert(
                layout.spec_type_id()->Some_0,
                old(self).kinds().len() as usize,
            ),
            final(self).resource_map() == old(self).resource_map(),
            *info == final(self).kinds().last(),
    {
        let id = RelationKindId(self.kinds.len());
        let type_id = layout.type_id.unwrap();
        proof {
            Self::lemma_push_entry(self.component_indices@, type_id, id);
        }
        self.component_indices.push((type_id, id));
        self.kinds.push(RelationKindInfo { data: layout, id });
        assert(self.kinds@.drop_last() =~= old(self).kinds@);
        let n = self.kinds.len();
        &self.kinds[n - 1]
    }

    /// Registers the resource kind of `layout`'s type. The type must have a type id and not
    /// be registered as a resource yet.
    pub fn new_resource_kind(&mut self, layout: ComponentDescriptor) -> (info: &RelationKindInfo)
        requires
            old(self).wf(),
            old(self).kinds().len() < usize::MAX,
            layout.spec_type_id() is Some,
            !old(self).resource_map().contains_key(layout.spec_type_id()->Some_0),
        ensures
            final(self).wf(),
            final(self).kinds().len() == old(self).kinds().len() + 1,
            final(self).kinds().drop_last() == old(self).kinds(),
            final(self).kinds().last().spec_id().0 == old(self).kinds().len(),
            final(self).kinds().last().spec_data() == layout,
            final(self).resource_map() == old(self).resource_map().insert(
                layout.spec_type_id()->Some_0,
                old(self).kinds().len() as usize,
            ),
            final(self).component_map() == old(self).component_map(),
            *info == final(self).kinds().last(),
    {
        let id = RelationKindId(self.kinds.len());
        let type_id = layout.type_id.unwrap();
        proof {
            Self::lemma_push_entry(self.resource_indices@, type_id, id);
        }
        self.resource_indices.push((type_id, id));
        self.kinds.push(RelationKindInfo { data: layout, id });
        assert(self.kinds@.drop_last() =~= old(self).kinds@);
        let n = self.kinds.len();
        &self.kinds[n - 1]
    }

    /// The kind registered under `id`, which must exist.
    pub fn get_relation_kind(&self, id: RelationKindId) -> (info: &RelationKindInfo)
        requires
            id.0 < self.kinds().len(),
        ensures
            *info == self.kinds()[id.0 as int],
    {
        &self.kinds[id.0]
    }

    /// The component kind registered for `type_id`, if any.
    pub fn get_component_kind(&self, type_id: TypeId) -> (info: Option<&RelationKindInfo>)
        requires
            self.wf(),
        ensures
            match info {
                Some(i) => self.component_map().contains_key(type_id) && *i == self.kinds()[self.component_map()[type_id] as int],
                None => !self.component_map().contains_key(type_id),
            },
    {
        match Self::find(&self.component_indices, &type_id) {
            Some(k) => {
                proof { self.lemma_map_index_in_range(self.component_indices@, type_id); }
                Some(&self.kinds[k])
            },
            None => None,
        }
    }

    /// The resource kind registered for `type_id`, if any.
    pub fn get_resource_kind(&self, type_id: TypeId) -> (info: Option<&RelationKindInfo>)
        requires
            self.wf(),
        ensures
            match info {
                Some(i) => self.resource_map().contains_key(type_id) && *i == self.kinds()[self.resource_map()[type_id] as int],
                None => !self.resource_map().contains_key(type_id),
            },
    {
        match Self::find(&self.resource_indices, &type_id) {
            Some(k) => {
                proof { self.lemma_map_index_in_range(self.resource_indices@, type_id); }
                Some(&self.kinds[k])
            },
            None => None,
        }
    }

    proof fn lemma_map_index_in_range(&self, entries: Seq<(TypeId, RelationKindId)>, t: TypeId)
        requires
            self.index_list_wf(entries),
            has_key(entries, t),
        ensures
            as_map(entries)[t] < self.kinds@.len(),
            self.kinds@[as_map(entries)[t] as int].data.type_id == Some(t),
    {
        let c = choose|i: int| 0 <= i < entries.len() && (#[trigger] entries[i]).0 == t;
        assert(entries[c].1.0 < self.kinds@.len());
    }

    /// The component kind of `layout`'s type, registered first when it is new.
    pub fn get_component_kind_or_insert(&mut self, layout: ComponentDescriptor) -> (info: &RelationKindInfo)
        requires
            old(self).wf(),
            old(self).kinds().len() < usize::MAX,
            layout.spec_type_id() is Some,
        ensures
            final(self).wf(),
            final(self).resource_map() == old(self).resource_map(),
            ({
                let t = layout.spec_type_id()->Some_0;
                if old(self).component_map().contains_key(t) {
                    &&& final(self).kinds() == old(self).kinds()
                    &&& final(self).component_map() == old(self).component_map()
                    &&& *info == old(self).kinds()[old(self).component_map()[t] as int]
                } else {
                    &&& final(self).kinds() == old(self).kinds().push(*info)
                    &&& info.spec_id().0 == old(self).kinds().len()
                    &&& info.spec_data() == layout
                    &&& final(self).component_map() == old(self).component_map().insert(t, old(self).kinds().len() as usize)
                }
            }),
    {
        let type_id = layout.type_id.unwrap();
        match Self::find(&self.component_indices, &type_id) {
            Some(k) => {
                proof { self.lemma_map_index_in_range(self.component_indices@, type_id); }
                &self.kinds[k]
            },
            None => {
                let info = self.new_component_kind(layout);
                info
            },
        }
    }

    /// The resource kind of `layout`'s type, registered first when it is new.
    pub fn get_resource_kind_or_insert(&mut self, layout: ComponentDescriptor) -> (info: &RelationKindInfo)
        requires
            old(self).wf(),
            old(self).kinds().len() < usize::MAX,
            layout.spec_type_id() is Some,
        ensures
            final(self).wf(),
            final(self).component_map() == old(self).component_map(),
            ({
                let t = layout.spec_type_id()->Some_0;
                if old(self).resource_map().contains_key(t) {
                    &&& final(self).kinds() == old(self).kinds()
                    &&& final(self).resource_map() == old(self).resource_map()
                    &&& *info == old(self).kinds()[old(self).resource_map()[t] as int]
                } else {
                    &&& final(self).kinds() == old(self).kinds().push(*info)
                    &&& info.spec_id().0 == old(self).kinds().len()
                    &&& info.spec_data() == layout
                    &&& final(self).resource_map() == old(self).resource_map().insert(t, old(self).kinds().len() as usize)
                }
            }),
    {
        let type_id = layout.type_id.unwrap();
        match Self::find(&self.resource_indices, &type_id) {
            Some(k) => {
                proof { self.lemma_map_index_in_range(self.resource_indices@, type_id); }
                &self.kinds[k]
            },
            None => {
                let info = self.new_resource_kind(layout);
                info
            },
        }
    }

    /// Each registered component type points at a kind that records that index as its id and
    /// that type as its type id.
    pub proof fn lemma_component_index(&self, t: TypeId)
        requires
            self.wf(),
            self.component_map().contains_key(t),
        ensures
            self.component_map()[t] < self.kinds().len(),
            self.kinds()[self.component_map()[t] as int].spec_id().0 == self.component_map()[t],
            self.kinds()[self.component_map()[t] as int].spec_data().spec_type_id() == Some(t),
    {
        self.lemma_map_index_in_range(self.component_indices@, t);
    }

    pub fn len(&self) -> (n: usize)
        ensures
            n == self.kinds().len(),
    {
        self.kinds.len()
    }

    pub fn is_empty(&self) -> (b: bool)
        ensures
            b == (self.kinds().len() == 0),
    {
        self.kinds.len() == 0
    }
}

} // verus!
