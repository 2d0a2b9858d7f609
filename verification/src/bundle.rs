//! Staging the components of an entity and writing them to it in one batch.
use vstd::prelude::*;
use std::any::TypeId;
use crate::component::ComponentDescriptor;
use crate::entity::Entity;
use crate::world::World;

verus! {

/// Hands out scratch buffers, one per entity, in which components are staged before they are
/// written.
#[derive(Default)]
pub struct BundleWriter;

/// The components staged for one entity, in the order they were pushed, each with the type it
/// is registered under.
pub struct EntityScratch<V> {
    pub staged: Vec<(TypeId, V)>,
}

/// The value staged last under the same kind as type `t` in world `w`, if any.
pub open spec fn staged_value<V: Copy>(staged: Seq<(TypeId, V)>, w: World<V>, t: TypeId) -> Option<V>
    decreases staged.len(),
{
    if staged.len() == 0 {
        None
    } else if w.kind_of_type(staged.last().0) == w.kind_of_type(t) {
        Some(staged.last().1)
    } else {
        staged_value(staged.drop_last(), w, t)
    }
}

impl BundleWriter {
    /// A scratch buffer for the next entity, with nothing staged.
    pub fn begin_entity<V>(&mut self) -> (s: EntityScratch<V>)
        ensures
            s.staged@ == Seq::<(TypeId, V)>::empty(),
    {
        EntityScratch { staged: Vec::new() }
    }
}

impl<V: Copy> EntityScratch<V> {
    /// Stages `component` under the type of `descriptor`, registering that type in `world` first
    /// when it is not registered yet.
    pub fn push_component(&mut self, world: &mut World<V>, descriptor: ComponentDescriptor, component: V)
        requires
            old(world).wf(),
            descriptor.spec_type_id() is Some,
            old(world).spec_components().kinds().len() < usize::MAX,
        ensures
            final(world).wf(),
            final(world).alive_seq() == old(world).alive_seq(),
            final(world).data_seq() == old(world).data_seq(),
            final(world).spec_id() == old(world).spec_id(),
            final(world).kind_of_type(descriptor.spec_type_id()->Some_0) is Some,
            forall|t: TypeId| old(world).kind_of_type(t) is Some ==> #[trigger] final(world).kind_of_type(t) == old(world).kind_of_type(t),
            final(self).staged@ == old(self).staged@.push((descriptor.spec_type_id()->Some_0, component)),
    {
        let t = descriptor.type_id().unwrap();
        let _ = world.register_component(descriptor);
        self.staged.push((t, component));
    }

    /// Writes every staged component to `entity`, in the order they were staged: for each kind,
    /// the entity then holds the value staged last under it.
    pub fn write(self, world: &mut World<V>, entity: Entity)
        requires
            old(world).wf(),
            old(world).live(entity),
            forall|i: int| 0 <= i < self.staged@.len() ==> old(world).kind_of_type((#[trigger] self.staged@[i]).0) is Some,
        ensures
            final(world).wf(),
            final(world).alive_seq() == old(world).alive_seq(),
            final(world).spec_components() == old(world).spec_components(),
            final(world).spec_id() == old(world).spec_id(),
            forall|e: Entity, t: TypeId, g: Option<Entity>| #[trigger] final(world).value_of_type(e, t, g) == if e == entity && g is None
                && staged_value(self.staged@, *old(world), t) is Some {
                staged_value(self.staged@, *old(world), t)
            } else {
                old(world).value_of_type(e, t, g)
            },
    {
        let ghost w0 = *world;
        let n = self.staged.len();
        let mut i: usize = 0;
        while i < n
            invariant
                n == self.staged@.len(),
                i <= n,
                world.wf(),
                world.alive_seq() == w0.alive_seq(),
                world.spec_components() == w0.spec_components(),
                world.spec_id() == w0.spec_id(),
                w0.live(entity),
                forall|j: int| 0 <= j < self.staged@.len() ==> w0.kind_of_type((#[trigger] self.staged@[j]).0) is Some,
                forall|e: Entity, t: TypeId, g: Option<Entity>| #[trigger] world.value_of_type(e, t, g) == if e == entity && g is None
                    && staged_value(self.staged@.take(i as int), w0, t) is Some {
                    staged_value(self.staged@.take(i as int), w0, t)
                } else {
                    w0.value_of_type(e, t, g)
                },
            decreases n - i,
        {
            let (t, v) = self.staged[i];
            let ghost before = *world;
            let _ = world.insert(entity, t, v);
            proof {
                let s = self.staged@.take(i + 1);
                assert(s.drop_last() =~= self.staged@.take(i as int));
                assert(s.last() == (t, v));
                assert(before.live(entity));
                assert(w0.kind_of_type(self.staged@[i as int].0) is Some);
            }
            i += 1;
        }
        proof {
            assert(self.staged@.take(n as int) =~= self.staged@);
        }
    }
}

} // verus!
