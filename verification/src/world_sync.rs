use vstd::prelude::*;
use std::any::TypeId;
use crate::entity::Entity;
use crate::world::World;

verus! {

/// Synchronizes the entities marked with `SyncToRenderWorld` between the main world and the
/// render world, keeping an entity-to-entity mapping between the two.
#[derive(Debug, Clone, Copy, PartialEq, Eq, Structural, Default)]
pub struct WorldSyncPlugin;

/// Marks an entity of the main world that is mirrored in the render world.
#[derive(Debug, Clone, Copy, PartialEq, Eq, Structural, Default)]
pub struct SyncToRenderWorld;

/// Held by a synchronized entity of the main world: its entity in the render world.
#[derive(Debug, Clone, Copy, PartialEq, Eq, Structural)]
pub struct RenderEntity(pub Entity);

impl RenderEntity {
    pub fn id(&self) -> (e: Entity)
        ensures
            e == self.0,
    {
        self.0
    }
}

/// Held by an entity of the render world: the main world entity it mirrors.
#[derive(Debug, Clone, Copy, PartialEq, Eq, Structural)]
pub struct MainEntity(pub Entity);

impl MainEntity {
    pub fn id(&self) -> (e: Entity)
        ensures
            e == self.0,
    {
        self.0
    }
}

/// Marks a render world entity to despawn at the end of the frame.
#[derive(Debug, Clone, Copy, PartialEq, Eq, Structural, Default)]
pub struct TemporaryRenderEntity;

/// A change to mirror: a main world entity gained `SyncToRenderWorld`, or the render world
/// entity of one that lost it.
#[derive(Debug, Clone, Copy, PartialEq, Eq, Structural)]
pub enum EntityRecord {
    /// The main world entity to mirror.
    Added(Entity),
    /// The render world entity to despawn.
    Removed(Entity),
}

/// The changes waiting for the next synchronization, in the order they happened.
#[derive(Debug)]
pub struct PendingSyncEntity {
    pub records: Vec<EntityRecord>,
}

impl PendingSyncEntity {
    pub fn new() -> (p: Self)
        ensures
            p.records@.len() == 0,
    {
        PendingSyncEntity { records: Vec::new() }
    }

    pub fn push(&mut self, record: EntityRecord)
        ensures
            final(self).records@ == old(self).records@.push(record),
    {
        self.records.push(record);
    }
}

/// When main world entity `e` gains `SyncToRenderWorld`: records that it is to be mirrored.
pub fn on_sync_added(pending: &mut PendingSyncEntity, e: Entity)
    ensures
        final(pending).records@ == old(pending).records@.push(EntityRecord::Added(e)),
{
    pending.push(EntityRecord::Added(e));
}

/// When main world entity `e` loses `SyncToRenderWorld`: records its render world entity (the
/// value of its `RenderEntity`, of type `re`) to be despawned, when it has one; otherwise
/// records nothing.
pub fn on_sync_removed(pending: &mut PendingSyncEntity, main_world: &World<Entity>, e: Entity, re: TypeId)
    requires
        main_world.wf(),
    ensures
        final(pending).records@ == match main_world.value_of_type(e, re, None) {
            Some(r) => old(pending).records@.push(EntityRecord::Removed(r)),
            None => old(pending).records@,
        },
{
    if let Some(r) = main_world.get(e, re) {
        pending.push(EntityRecord::Removed(r));
    }
}

/// Whether two worlds hold the same entities and values.
pub open spec fn same_world(a: World<Entity>, b: World<Entity>) -> bool {
    &&& a.alive_seq() == b.alive_seq()
    &&& a.data_seq() == b.data_seq()
    &&& a.spec_components() == b.spec_components()
    &&& a.spec_id() == b.spec_id()
}

/// `w1` is `w0` with `value` stored on `e` under the component of type `t`.
pub open spec fn stored(w0: World<Entity>, w1: World<Entity>, e: Entity, t: TypeId, value: Entity) -> bool {
    &&& w1.wf()
    &&& w1.spec_components() == w0.spec_components()
    &&& w1.spec_id() == w0.spec_id()
    &&& forall|e2: Entity, t2: TypeId, g2: Option<Entity>|
        #[trigger] w1.value_of_type(e2, t2, g2) == if e2 == e && w0.kind_of_type(t2) == w0.kind_of_type(t) && g2 is None {
            Some(value)
        } else {
            w0.value_of_type(e2, t2, g2)
        }
}

/// One step of synchronization: (`m1`, `r1`) is (`m0`, `r0`) with `record` applied. An added
/// main entity that is still alive gets a new render entity holding `MainEntity` (type `me`)
/// aimed back at it, and itself holds `RenderEntity` (type `re`) aimed at the new one; a removed
/// render entity is despawned if alive.
pub open spec fn sync_step(
    m0: World<Entity>,
    r0: World<Entity>,
    record: EntityRecord,
    m1: World<Entity>,
    r1: World<Entity>,
    re: TypeId,
    me: TypeId,
) -> bool {
    match record {
        EntityRecord::Added(e) => if m0.live(e) {
            let id = Entity { index: r0.alive_seq().len() as u32, generation: 0 };
            &&& r1.alive_seq() == r0.alive_seq().push(true)
            &&& stored(r0, r1, id, me, e)
            &&& m1.alive_seq() == m0.alive_seq()
            &&& stored(m0, m1, e, re, id)
        } else {
            same_world(m1, m0) && same_world(r1, r0)
        },
        EntityRecord::Removed(x) => {
            &&& same_world(m1, m0)
            &&& r1.wf()
            &&& if r0.live(x) {
                &&& r1.alive_seq() == r0.alive_seq().update(x.index as int, false)
                &&& r1.data_seq() == r0.data_seq().update(x.index as int, Seq::empty())
                &&& r1.spec_components() == r0.spec_components()
                &&& r1.spec_id() == r0.spec_id()
            } else {
                same_world(r1, r0)
            }
        },
    }
}

/// No record asks to mirror an entity that is already mirrored: every alive main entity added
/// holds no `RenderEntity` yet and is added once.
pub open spec fn no_resync(main: World<Entity>, records: Seq<EntityRecord>, re: TypeId) -> bool {
    forall|i: int|
        0 <= i < records.len() && (#[trigger] records[i] matches EntityRecord::Added(e) && main.live(e)) ==> {
            let e = records[i]->Added_0;
            &&& main.value_of_type(e, re, None) is None
            &&& forall|j: int| 0 <= j < i ==> records[j] != EntityRecord::Added(e)
        }
}

/// Synchronizing an added main entity that is alive links it with a new, alive render entity:
/// the main entity's `RenderEntity` is aimed at the render entity, whose `MainEntity` is aimed
/// back at it.
pub proof fn law_synced_entities_point_at_each_other(
    m0: World<Entity>,
    r0: World<Entity>,
    e: Entity,
    m1: World<Entity>,
    r1: World<Entity>,
    re: TypeId,
    me: TypeId,
)
    requires
        sync_step(m0, r0, EntityRecord::Added(e), m1, r1, re, me),
        m0.live(e),
    ensures
        exists|id: Entity| {
            &&& r1.live(id)
            &&& #[trigger] m1.value_of_type(e, re, None) == Some(id)
            &&& r1.value_of_type(id, me, None) == Some(e)
        },
{
    let id = Entity { index: r0.alive_seq().len() as u32, generation: 0 };
    assert(m1.value_of_type(e, re, None) == Some(id));
    assert(r1.value_of_type(id, me, None) == Some(e));
}

/// Applies the pending records in order to the main world and the render world, then clears
/// them. `re` and `me` are the types of `RenderEntity` and `MainEntity`.
pub fn entity_sync_system(
    main_world: &mut World<Entity>,
    render_world: &mut World<Entity>,
    pending: &mut PendingSyncEntity,
    re: TypeId,
    me: TypeId,
)
    requires
        old(main_world).wf(),
        old(render_world).wf(),
        old(main_world).kind_of_type(re) is Some,
        old(render_world).kind_of_type(me) is Some,
        old(render_world).alive_seq().len() + old(pending).records@.len() < u32::MAX,
        no_resync(*old(main_world), old(pending).records@, re),
    ensures
        final(pending).records@.len() == 0,
        final(main_world).wf(),
        final(render_world).wf(),
        exists|tm: Seq<World<Entity>>, tr: Seq<World<Entity>>| {
            &&& tm.len() == old(pending).records@.len() + 1
            &&& tr.len() == tm.len()
            &&& tm[0] == *old(main_world)
            &&& tr[0] == *old(render_world)
            &&& forall|k: int| 0 <= k < old(pending).records@.len() ==> #[trigger] sync_step(
                tm[k],
                tr[k],
                old(pending).records@[k],
                tm[k + 1],
                tr[k + 1],
                re,
                me,
            )
            &&& same_world(*final(main_world), tm.last())
            &&& same_world(*final(render_world), tr.last())
        },
{
    let ghost records = pending.records@;
    let ghost main0 = *main_world;
    let ghost mut tm: Seq<World<Entity>> = seq![*main_world];
    let ghost mut tr: Seq<World<Entity>> = seq![*render_world];
    let n = pending.records.len();
    let mut i: usize = 0;
    while i < n
        invariant
            n == records.len(),
            i <= n,
            pending.records@ == records,
            main_world.wf(),
            render_world.wf(),
            main_world.kind_of_type(re) is Some,
            render_world.kind_of_type(me) is Some,
            main_world.spec_components() == main0.spec_components(),
            main_world.alive_seq() == main0.alive_seq(),
            render_world.alive_seq().len() + n - i < u32::MAX,
            no_resync(main0, records, re),
            forall|e: Entity| (forall|j: int| 0 <= j < i ==> records[j] != EntityRecord::Added(e)) ==> #[trigger] main_world.value_of_type(e, re, None) == main0.value_of_type(e, re, None),
            tm.len() == i + 1,
            tr.len() == i + 1,
            tm[0] == main0,
            tr[0] == *old(render_world),
            tm.last() == *main_world,
            tr.last() == *render_world,
            forall|k: int| 0 <= k < i ==> #[trigger] sync_step(tm[k], tr[k], records[k], tm[k + 1], tr[k + 1], re, me),
        decreases n - i,
    {
        let record = pending.records[i];
        let ghost m_before = *main_world;
        let ghost r_before = *render_world;
        match record {
            EntityRecord::Added(e) => {
                if main_world.is_alive(e) {
                    let id = render_world.spawn();
                    proof {
                        let rs = *render_world;
                        rs.lemma_slot_count();
                        r_before.lemma_slot_count();
                        assert forall|e2: Entity, t2: TypeId, g2: Option<Entity>| #[trigger] rs.value_of_type(e2, t2, g2) == r_before.value_of_type(e2, t2, g2) by {
                            if e2 == id {
                                assert(rs.data_seq()[id.index as int] == Seq::<crate::world::Slot<Entity>>::empty());
                                assert(!r_before.live(e2));
                            } else if rs.live(e2) {
                                assert(e2.index < r_before.alive_seq().len());
                                assert(rs.alive_seq()[e2.index as int] == r_before.alive_seq()[e2.index as int]);
                                assert(rs.data_seq()[e2.index as int] == r_before.data_seq()[e2.index as int]);
                            } else {
                                if e2.generation == 0 && e2.index < r_before.alive_seq().len() {
                                    assert(rs.alive_seq()[e2.index as int] == r_before.alive_seq()[e2.index as int]);
                                }
                            }
                        }
                    }
                    let _ = render_world.insert(id, me, e);
                    let _ = main_world.insert(e, re, id);
                    proof {
                        assert(main0.live(e));
                        assert(records[i as int] == EntityRecord::Added(e));
                        assert forall|e2: Entity| (forall|j: int| 0 <= j < i + 1 ==> records[j] != EntityRecord::Added(e2)) implies #[trigger] main_world.value_of_type(e2, re, None) == main0.value_of_type(e2, re, None) by {
                            assert(records[i as int] != EntityRecord::Added(e2));
                            assert(forall|j: int| 0 <= j < i ==> records[j] != EntityRecord::Added(e2));
                            assert(m_before.value_of_type(e2, re, None) == main0.value_of_type(e2, re, None));
                        }
                    }
                }
            },
            EntityRecord::Removed(x) => {
                let _ = render_world.despawn(x);
            },
        }
        proof {
            tm = tm.push(*main_world);
            tr = tr.push(*render_world);
            assert(tm[i as int] == m_before);
            assert(tr[i as int] == r_before);
            assert(sync_step(tm[i as int], tr[i as int], records[i as int], tm[i + 1], tr[i + 1], re, me));
        }
        i += 1;
    }
    pending.records.clear();
}


/// Whether `s` lists entities by non-increasing index.
pub open spec fn by_decreasing_index(s: Seq<Entity>) -> bool {
    forall|a: int, b: int| 0 <= a <= b < s.len() ==> s[a].index >= s[b].index
}

/// The entities in the order they are despawned: by decreasing index, so that the slots they
/// free are handed out again in increasing order.
pub fn despawn_order(entities: Vec<Entity>) -> (r: Vec<Entity>)
    ensures
        r@.to_multiset() == entities@.to_multiset(),
        by_decreasing_index(r@),
{
    broadcast use vstd::seq_lib::group_seq_properties;

    let mut r: Vec<Entity> = Vec::new();
    let mut i: usize = 0;
    proof {
        assert(entities@.take(0) =~= Seq::<Entity>::empty());
        assert(r@ =~= Seq::<Entity>::empty());
    }
    while i < entities.len()
        invariant
            i <= entities@.len(),
            r@.to_multiset() == entities@.take(i as int).to_multiset(),
            by_decreasing_index(r@),
        decreases entities@.len() - i,
    {
        let e = entities[i];
        let mut pos: usize = 0;
        while pos < r.len() && r[pos].index >= e.index
            invariant
                pos <= r@.len(),
                forall|a: int| 0 <= a < pos ==> r@[a].index >= e.index,
            decreases r@.len() - pos,
        {
            pos += 1;
        }
        let ghost before = r@;
        r.insert(pos, e);
        proof {
            assert(entities@.take(i + 1) =~= entities@.take(i as int).push(e));
            assert(r@ == before.insert(pos as int, e));
            vstd::seq_lib::to_multiset_insert(before, pos as int, e);
            vstd::seq_lib::to_multiset_build(entities@.take(i as int), e);
            assert forall|a: int, b: int| 0 <= a <= b < r@.len() implies r@[a].index >= r@[b].index by {
                if pos < before.len() {
                    assert(before[pos as int].index < e.index);
                }
                if a < pos as int && b > pos as int {
                    assert(r@[a] == before[a]);
                    assert(r@[b] == before[b - 1]);
                }
            }
        }
        i += 1;
    }
    proof {
        assert(entities@.take(entities@.len() as int) =~= entities@);
    }
    r
}

/// Whether slot `i` is that of one of `entities`.
pub open spec fn slot_listed(entities: Seq<Entity>, i: int) -> bool {
    entities.contains(Entity { index: i as u32, generation: 0 })
}

/// Despawns the temporary render entities, by decreasing index.
pub fn despawn_temporary_render_entities(world: &mut World<Entity>, temporaries: Vec<Entity>)
    requires
        old(world).wf(),
    ensures
        final(world).wf(),
        final(world).spec_components() == old(world).spec_components(),
        final(world).spec_id() == old(world).spec_id(),
        final(world).alive_seq().len() == old(world).alive_seq().len(),
        forall|i: int| 0 <= i < old(world).alive_seq().len() ==> #[trigger] final(world).alive_seq()[i] == (old(world).alive_seq()[i] && !slot_listed(temporaries@, i)),
        forall|i: int| 0 <= i < old(world).alive_seq().len() ==> #[trigger] final(world).data_seq()[i] == if old(world).alive_seq()[i] && slot_listed(temporaries@, i) {
            Seq::empty()
        } else {
            old(world).data_seq()[i]
        },
{
    let order = despawn_order(temporaries);
    proof {
        old(world).lemma_slot_count();
        assert forall|x: Entity| #[trigger] order@.contains(x) == temporaries@.contains(x) by {
            vstd::seq_lib::to_multiset_contains(order@, x);
            vstd::seq_lib::to_multiset_contains(temporaries@, x);
        }
    }
    let n = order.len();
    let mut k: usize = 0;
    while k < n
        invariant
            n == order@.len(),
            k <= n,
            world.wf(),
            world.spec_components() == old(world).spec_components(),
            world.spec_id() == old(world).spec_id(),
            world.alive_seq().len() == old(world).alive_seq().len(),
            world.data_seq().len() == old(world).alive_seq().len(),
            forall|i: int| 0 <= i < old(world).alive_seq().len() ==> #[trigger] world.alive_seq()[i] == (old(world).alive_seq()[i] && !slot_listed(order@.take(k as int), i)),
            forall|i: int| 0 <= i < old(world).alive_seq().len() ==> #[trigger] world.data_seq()[i] == if old(world).alive_seq()[i] && slot_listed(order@.take(k as int), i) {
                Seq::empty()
            } else {
                old(world).data_seq()[i]
            },
        decreases n - k,
    {
        let e = order[k];
        let ghost w = *world;
        world.despawn(e);
        proof {
            world.lemma_slot_count();
            assert(order@.take(k + 1) =~= order@.take(k as int).push(e));
            assert forall|i: int| 0 <= i < old(world).alive_seq().len() implies #[trigger] world.alive_seq()[i] == (old(world).alive_seq()[i] && !slot_listed(order@.take(k + 1), i)) && world.data_seq()[i] == if old(world).alive_seq()[i] && slot_listed(order@.take(k + 1), i) {
                Seq::empty()
            } else {
                old(world).data_seq()[i]
            } by {
                let x = Entity { index: i as u32, generation: 0 };
                let t0 = order@.take(k as int);
                let t1 = order@.take(k + 1);
                assert(t1 == t0.push(e));
                if t0.contains(x) {
                    let j = choose|j: int| 0 <= j < t0.len() && t0[j] == x;
                    assert(t1[j] == x);
                }
                if e == x {
                    assert(t1[k as int] == x);
                }
                if t1.contains(x) {
                    let j = choose|j: int| 0 <= j < t1.len() && t1[j] == x;
                    if j < k {
                        assert(t0[j] == x);
                    }
                }
                assert(t1.contains(x) == (t0.contains(x) || e == x));
                if e == x {
                    assert(w.live(e) == w.alive_seq()[i]);
                } else {
                    assert(e.index != i || e.generation != 0);
                }
            }
            assert forall|i: int| 0 <= i < old(world).alive_seq().len() implies #[trigger] world.data_seq()[i] == if old(world).alive_seq()[i] && slot_listed(order@.take(k + 1), i) {
                Seq::empty()
            } else {
                old(world).data_seq()[i]
            } by {
                assert(world.alive_seq()[i] == (old(world).alive_seq()[i] && !slot_listed(order@.take(k + 1), i)));
            }
        }
        k += 1;
    }
    proof {
        assert(order@.take(n as int) =~= order@);
    }
}

} // verus!
