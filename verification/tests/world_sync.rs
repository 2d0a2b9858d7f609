use bevy_ecs_core::component::{ComponentDescriptor, StorageType};
use bevy_ecs_core::entity::Entity;
use bevy_ecs_core::world::World;
use bevy_ecs_core::world_sync::{
    despawn_order, despawn_temporary_render_entities, entity_sync_system, on_sync_added, on_sync_removed, EntityRecord,
    MainEntity, PendingSyncEntity,
    RenderEntity, SyncToRenderWorld,
};
use std::any::TypeId;

struct RenderDataComponent;

fn describe<T: Send + Sync + 'static>(name: &str) -> ComponentDescriptor {
    ComponentDescriptor::new::<T>(name.to_string(), StorageType::Table)
}

/// The entities of `world` holding component `t`.
fn holding(world: &World<Entity>, t: TypeId, slots: u32) -> Vec<Entity> {
    (0..slots).map(|i| Entity::new(i)).filter(|e| world.get(*e, t).is_some()).collect()
}

#[test]
fn world_sync() {
    let mut main_world: World<Entity> = World::new();
    let mut render_world: World<Entity> = World::new();
    main_world.register_component(describe::<RenderDataComponent>("RenderDataComponent")).unwrap();
    main_world.register_component(describe::<SyncToRenderWorld>("SyncToRenderWorld")).unwrap();
    main_world.register_component(describe::<RenderEntity>("RenderEntity")).unwrap();
    render_world.register_component(describe::<MainEntity>("MainEntity")).unwrap();
    let re = TypeId::of::<RenderEntity>();
    let me = TypeId::of::<MainEntity>();
    let mut pending = PendingSyncEntity::new();

    // spawn some empty entities for test
    for _ in 0..99 {
        main_world.spawn();
    }

    // spawn
    let main_entity = main_world.spawn();
    main_world.insert(main_entity, TypeId::of::<RenderDataComponent>(), main_entity).unwrap();
    // indicates that its entity needs to be synchronized to the render world
    main_world.insert(main_entity, TypeId::of::<SyncToRenderWorld>(), main_entity).unwrap();
    on_sync_added(&mut pending, main_entity);
    assert_eq!(pending.records, vec![EntityRecord::Added(main_entity)]);

    entity_sync_system(&mut main_world, &mut render_world, &mut pending, re, me);
    assert!(pending.records.is_empty());

    // Only one synchronized entity
    let synced = holding(&render_world, me, 1024);
    assert!(synced.len() == 1);
    let render_entity = synced[0];
    let render_entity_component = RenderEntity(main_world.get(main_entity, re).unwrap());
    assert!(render_entity_component.id() == render_entity);

    let main_entity_component = MainEntity(render_world.get(render_entity_component.id(), me).unwrap());
    assert!(main_entity_component.id() == main_entity);

    // despawn: removing the marker records the render entity to despawn
    on_sync_removed(&mut pending, &main_world, main_entity, re);
    assert_eq!(pending.records, vec![EntityRecord::Removed(render_entity)]);
    main_world.despawn(main_entity);

    entity_sync_system(&mut main_world, &mut render_world, &mut pending, re, me);

    // Only one synchronized entity
    assert!(holding(&render_world, me, 1024).len() == 0);
}

#[test]
fn sync_skips_entities_already_gone() {
    let mut main_world: World<Entity> = World::new();
    let mut render_world: World<Entity> = World::new();
    main_world.register_component(describe::<RenderEntity>("RenderEntity")).unwrap();
    render_world.register_component(describe::<MainEntity>("MainEntity")).unwrap();
    let re = TypeId::of::<RenderEntity>();
    let me = TypeId::of::<MainEntity>();
    let gone = main_world.spawn();
    main_world.despawn(gone);
    let kept = main_world.spawn();
    let mut pending = PendingSyncEntity::new();
    pending.push(EntityRecord::Added(gone));
    pending.push(EntityRecord::Added(kept));
    // an entity without a render entity records nothing when it loses the marker
    on_sync_removed(&mut pending, &main_world, kept, re);
    assert_eq!(pending.records.len(), 2);
    pending.push(EntityRecord::Removed(Entity::new(7)));
    entity_sync_system(&mut main_world, &mut render_world, &mut pending, re, me);
    // Only the live entity was mirrored, into the first render slot.
    assert_eq!(main_world.get(gone, re), None);
    assert_eq!(main_world.get(kept, re), Some(Entity::new(0)));
    assert_eq!(render_world.get(Entity::new(0), me), Some(kept));
    assert_eq!(holding(&render_world, me, 4).len(), 1);
}

#[test]
fn temporary_render_entities_despawn_by_decreasing_index() {
    let order = despawn_order(vec![Entity::new(3), Entity::new(9), Entity::new(1), Entity::new(9)]);
    assert_eq!(order, vec![Entity::new(9), Entity::new(9), Entity::new(3), Entity::new(1)]);

    let mut world: World<Entity> = World::new();
    let a = world.spawn();
    let b = world.spawn();
    let c = world.spawn();
    despawn_temporary_render_entities(&mut world, vec![c, a]);
    assert!(!world.is_alive(a));
    assert!(world.is_alive(b));
    assert!(!world.is_alive(c));
}
