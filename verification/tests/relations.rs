use bevy_ecs_core::component::{ComponentDescriptor, StorageType};
use bevy_ecs_core::entity::Entity;
use bevy_ecs_core::query::{QueryRelationFilter, QuerySide, RelationFilter};
use bevy_ecs_core::world::World;
use std::any::TypeId;

fn describe<T: Send + Sync + 'static>(name: &str, storage_type: StorageType) -> ComponentDescriptor {
    ComponentDescriptor::new::<T>(name.to_string(), storage_type)
}

#[test]
fn relation_spawn() {
    relation_spawn_raw(StorageType::Table);
    relation_spawn_raw(StorageType::SparseSet);
}

fn relation_spawn_raw(storage_type: StorageType) {
    #[derive(Clone, Copy, Debug, PartialEq)]
    struct ChildOf;

    let mut world: World<ChildOf> = World::new();
    world.register_component(describe::<ChildOf>("ChildOf", storage_type)).unwrap();
    let child_of = TypeId::of::<ChildOf>();

    let parent = world.spawn();
    let not_parent = world.spawn();

    let child = world.spawn();
    world.insert_relation(child, child_of, ChildOf, parent).unwrap();

    assert!(world.contains_relation(child, child_of, parent));
    assert!(world.contains_relation(child, child_of, not_parent) == false);
    assert!(world.contains_relation(child, TypeId::of::<u32>(), parent) == false);

    assert!(world.remove_relation(child, child_of, parent).is_some());
    assert!(world.remove_relation(child, child_of, parent).is_none());
    assert!(world.remove_relation(child, TypeId::of::<u32>(), parent).is_none());
    assert!(world.remove_relation(child, child_of, not_parent).is_none());
}

#[test]
fn relation_query() {
    relation_query_raw(StorageType::Table);
    relation_query_raw(StorageType::SparseSet);
}

fn relation_query_raw(storage_type: StorageType) {
    #[derive(Clone, Copy, Debug, PartialEq)]
    struct ChildOf;

    let mut world: World<ChildOf> = World::new();
    world.register_component(describe::<ChildOf>("ChildOf", storage_type)).unwrap();
    let child_of = TypeId::of::<ChildOf>();

    let parent1 = world.spawn();
    let child1 = world.spawn();
    world.insert_relation(child1, child_of, ChildOf, parent1).unwrap();
    let parent2 = world.spawn();
    let child2 = world.spawn();
    world.insert_relation(child2, child_of, ChildOf, parent2).unwrap();

    let results = world.query_relation(child_of, &QueryRelationFilter::new());
    let mut iter = results.iter();
    assert!(iter.next().unwrap().0 == child1);
    assert!(iter.next().unwrap().0 == child2);
    assert!(matches!(iter.next(), None));

    let results = world.query_relation(child_of, &QueryRelationFilter::new().add_target_filter(QuerySide::Data, child_of, parent1));
    let mut iter = results.iter();
    assert!(iter.next().unwrap().0 == child1);
    assert!(matches!(iter.next(), None));

    let results = world.query_relation(child_of, &QueryRelationFilter::new().add_target_filter(QuerySide::Data, child_of, parent2));
    let mut iter = results.iter();
    assert!(iter.next().unwrap().0 == child2);
    assert!(matches!(iter.next(), None));

    let results = world.query_relation(
        child_of,
        &QueryRelationFilter::new()
            .add_target_filter(QuerySide::Data, child_of, parent1)
            .add_target_filter(QuerySide::Data, child_of, parent2),
    );
    let mut iter = results.iter();
    assert!(matches!(iter.next(), None));
}

#[test]
fn relation_access() {
    relation_access_raw(StorageType::Table);
    relation_access_raw(StorageType::SparseSet);
}

fn relation_access_raw(storage_type: StorageType) {
    #[derive(Debug, PartialEq, Eq, Clone, Copy)]
    struct ChildOf {
        despawn_recursive: bool,
    }
    let mut world: World<ChildOf> = World::new();
    world.register_component(describe::<ChildOf>("ChildOf", storage_type)).unwrap();
    let child_of = TypeId::of::<ChildOf>();

    let random_parent = world.spawn();
    let parent1 = world.spawn();
    let parent2 = world.spawn();
    let child1 = world.spawn();
    world
        .insert_relation(child1, child_of, ChildOf { despawn_recursive: true }, parent1)
        .unwrap();
    world
        .insert_relation(child1, child_of, ChildOf { despawn_recursive: false }, random_parent)
        .unwrap();
    let child2 = world.spawn();
    world
        .insert_relation(child2, child_of, ChildOf { despawn_recursive: false }, parent2)
        .unwrap();
    world
        .insert_relation(child2, child_of, ChildOf { despawn_recursive: true }, random_parent)
        .unwrap();

    let results = world.query_relation(child_of, &QueryRelationFilter::new().add_target_filter(QuerySide::Data, child_of, parent1));
    let mut iter = results.iter();
    let (child, accessor) = iter.next().unwrap();
    let mut accessor = accessor.iter();
    assert!(*child == child1);
    assert_eq!(
        *accessor.next().unwrap(),
        (Some(parent1), ChildOf { despawn_recursive: true })
    );
    assert!(matches!(accessor.next(), None));
    assert!(matches!(iter.next(), None));

    let results = world.query_relation(child_of, &QueryRelationFilter::new().add_target_filter(QuerySide::Data, child_of, parent2));
    let mut iter = results.iter();
    let (child, accessor) = iter.next().unwrap();
    let mut accessor = accessor.iter();
    assert!(*child == child2);
    assert_eq!(
        *accessor.next().unwrap(),
        (Some(parent2), ChildOf { despawn_recursive: false })
    );
    assert!(matches!(accessor.next(), None));
    assert!(matches!(iter.next(), None));

    let results = world.query_relation(child_of, &QueryRelationFilter::new());
    let mut iter = results.iter();
    //
    let (child, accessor) = iter.next().unwrap();
    let mut accessor = accessor.iter();
    assert!(*child == child1);
    assert_eq!(
        *accessor.next().unwrap(),
        (Some(random_parent), ChildOf { despawn_recursive: false })
    );
    assert_eq!(
        *accessor.next().unwrap(),
        (Some(parent1), ChildOf { despawn_recursive: true })
    );
    assert!(matches!(accessor.next(), None));
    //
    let (child, accessor) = iter.next().unwrap();
    let mut accessor = accessor.iter();
    assert!(*child == child2);
    assert_eq!(
        *accessor.next().unwrap(),
        (Some(random_parent), ChildOf { despawn_recursive: true })
    );
    assert_eq!(
        *accessor.next().unwrap(),
        (Some(parent2), ChildOf { despawn_recursive: false })
    );
    assert!(matches!(accessor.next(), None));
    assert!(matches!(iter.next(), None));
}

#[test]
fn relation_query_mut() {
    relation_query_mut_raw(StorageType::Table);
    relation_query_mut_raw(StorageType::SparseSet);
}

fn relation_query_mut_raw(storage_type: StorageType) {
    #[derive(Eq, PartialEq, Debug, Copy, Clone)]
    struct MyRelation(bool, u32);

    struct Fragment<const N: usize>;

    #[derive(Eq, PartialEq, Debug, Copy, Clone)]
    enum Data {
        Rel(MyRelation),
        Name(&'static str),
        Marker,
    }

    let mut world: World<Data> = World::new();
    world.register_component(describe::<MyRelation>("MyRelation", storage_type)).unwrap();
    world.register_component(describe::<Fragment<0>>("Fragment<0>", StorageType::Table)).unwrap();
    world.register_component(describe::<Fragment<1>>("Fragment<1>", StorageType::Table)).unwrap();
    world.register_component(describe::<&'static str>("&str", StorageType::Table)).unwrap();
    let my_relation = TypeId::of::<MyRelation>();
    let name = TypeId::of::<&'static str>();

    let target1 = world.spawn();
    world.insert(target1, TypeId::of::<Fragment<1>>(), Data::Marker).unwrap();
    let target2 = world.spawn();
    world.insert(target2, TypeId::of::<Fragment<1>>(), Data::Marker).unwrap();
    let target3 = world.spawn();

    let targeter1 = world.spawn();
    world.insert(targeter1, TypeId::of::<Fragment<0>>(), Data::Marker).unwrap();
    world.insert(targeter1, name, Data::Name("targeter1")).unwrap();
    world.insert_relation(targeter1, my_relation, Data::Rel(MyRelation(true, 10)), target1).unwrap();
    world.insert_relation(targeter1, my_relation, Data::Rel(MyRelation(false, 48)), target2).unwrap();
    world.insert_relation(targeter1, my_relation, Data::Rel(MyRelation(false, 14)), target3).unwrap();
    let targeter2 = world.spawn();
    world.insert(targeter2, name, Data::Name("targeter2")).unwrap();
    world.insert_relation(targeter2, my_relation, Data::Rel(MyRelation(false, 75)), target1).unwrap();
    world.insert_relation(targeter2, my_relation, Data::Rel(MyRelation(true, 22)), target2).unwrap();
    let targeter3 = world.spawn();
    world.insert(targeter3, TypeId::of::<Fragment<0>>(), Data::Marker).unwrap();
    world.insert(targeter3, name, Data::Name("targeter3")).unwrap();
    world.insert_relation(targeter3, my_relation, Data::Rel(MyRelation(true, 839)), target2).unwrap();
    world.insert_relation(targeter3, my_relation, Data::Rel(MyRelation(true, 3)), target3).unwrap();

    let rel_of = |d: Data| match d {
        Data::Rel(r) => r,
        _ => panic!(),
    };
    let name_of = |world: &World<Data>, e: Entity| match world.get(e, name) {
        Some(Data::Name(n)) => n,
        _ => panic!(),
    };

    // The query reads (Entity, &mut Relation<MyRelation>, &&str): every result has a name.
    let results = world.query_relation(my_relation, &QueryRelationFilter::new().add_target_filter(QuerySide::Data, my_relation, target2));
    for (e, accessor) in results {
        let _ = name_of(&world, e);
        assert_eq!(accessor.len(), 1);
        let (t, rel) = accessor[0];
        let mut rel = rel_of(rel);
        rel.0 = !rel.0;
        rel.1 += 10;
        world.insert_relation(e, my_relation, Data::Rel(rel), t.unwrap()).unwrap();
    }

    let results = world.query_relation(
        my_relation,
        &QueryRelationFilter::new()
            .add_target_filter(QuerySide::Data, my_relation, target1)
            .add_target_filter(QuerySide::Data, my_relation, target2),
    );
    let mut was_targeter1 = false;
    let mut was_targeter2 = false;
    for (targeter, accessor) in results {
        let name = name_of(&world, targeter);
        let targets = accessor.iter().map(|(t, rel)| (*t, rel_of(*rel))).collect::<Vec<_>>();
        match () {
            _ if targeter == targeter1 => {
                was_targeter1 = true;
                assert_eq!(name, "targeter1");
                assert_eq!(&targets[0], &(Some(target1), MyRelation(true, 10)));
                assert_eq!(&targets[1], &(Some(target2), MyRelation(true, 58)));
                assert_eq!(targets.len(), 2);
            }
            _ if targeter == targeter2 => {
                was_targeter2 = true;
                assert_eq!(name, "targeter2");
                assert_eq!(&targets[0], &(Some(target1), MyRelation(false, 75)));
                assert_eq!(&targets[1], &(Some(target2), MyRelation(false, 32)));
                assert_eq!(targets.len(), 2);
            }
            _ => panic!(),
        }
    }
    assert!(was_targeter1 && was_targeter2);

    let results = world.query_relation(my_relation, &QueryRelationFilter::new());
    for (e, accessor) in results {
        let _ = name_of(&world, e);
        for (t, rel) in accessor {
            let mut rel = rel_of(rel);
            rel.0 = !rel.0;
            rel.1 *= 2;
            world.insert_relation(e, my_relation, Data::Rel(rel), t.unwrap()).unwrap();
        }
    }

    let mut was_targeter1 = false;
    let mut was_targeter2 = false;
    let mut was_targeter3 = false;
    let results = world.query_relation(my_relation, &QueryRelationFilter::new());
    for (targeter, accessor) in results {
        let name = name_of(&world, targeter);
        let targets = accessor.iter().map(|(t, rel)| (*t, rel_of(*rel))).collect::<Vec<_>>();
        match () {
            _ if targeter == targeter1 => {
                was_targeter1 = true;
                assert_eq!(name, "targeter1");
                assert_eq!(&targets[0], &(Some(target1), MyRelation(false, 20)));
                assert_eq!(&targets[1], &(Some(target2), MyRelation(false, 116)));
                assert_eq!(&targets[2], &(Some(target3), MyRelation(true, 28)));
                assert_eq!(targets.len(), 3);
            }
            _ if targeter == targeter2 => {
                was_targeter2 = true;
                assert_eq!(name, "targeter2");
                assert_eq!(&targets[0], &(Some(target1), MyRelation(true, 150)));
                assert_eq!(&targets[1], &(Some(target2), MyRelation(true, 64)));
                assert_eq!(targets.len(), 2);
            }
            _ if targeter == targeter3 => {
                was_targeter3 = true;
                assert_eq!(name, "targeter3");
                assert_eq!(&targets[0], &(Some(target2), MyRelation(true, 849 * 2)));
                assert_eq!(&targets[1], &(Some(target3), MyRelation(false, 6)));
                assert_eq!(targets.len(), 2);
            }
            _ => panic!(),
        }
    }
    assert!(was_targeter1 && was_targeter2 && was_targeter3);
}

#[test]
fn target_filter_tests() {
    let u32_kind = TypeId::of::<u32>();
    let u64_kind = TypeId::of::<u64>();

    // a query of `&Relation<u32>`
    let mut filter = QueryRelationFilter::default();
    filter.add_filter_relation(QuerySide::Data, RelationFilter::new(u32_kind).target(Entity::new(1)));
    assert_eq!(filter.targets(QuerySide::Data, &u32_kind), vec![Entity::new(1).to_bits()]);

    // a query of `(&Relation<u32>, &Relation<u64>)`
    let mut filter = QueryRelationFilter::default();
    filter.add_filter_relation(QuerySide::Data, RelationFilter::new(u32_kind).target(Entity::new(1)));
    filter.add_filter_relation(QuerySide::Data, RelationFilter::new(u64_kind).target(Entity::new(12)));
    assert_eq!(filter.targets(QuerySide::Data, &u32_kind), vec![Entity::new(1).to_bits()]);
    assert_eq!(filter.targets(QuerySide::Data, &u64_kind), vec![Entity::new(12).to_bits()]);
    assert_eq!(filter.targets(QuerySide::Filter, &u64_kind), Vec::<u64>::new());
}

#[test]
fn relation_filters_deduplicate_per_term() {
    let kind = TypeId::of::<u32>();
    let other = TypeId::of::<u64>();
    let mut filter = QueryRelationFilter::new()
        .add_target_filter(QuerySide::Data, kind, Entity::new(3))
        .add_target_filter(QuerySide::Data, kind, Entity::new(1))
        .add_target_filter(QuerySide::Data, kind, Entity::new(3))
        .add_target_filter(QuerySide::Filter, kind, Entity::new(3))
        .add_target_filter(QuerySide::Data, other, Entity::new(1))
        .add_target_filter(QuerySide::Data, other, Entity::new(1));
    filter.deduplicate_targets();
    assert_eq!(filter.targets(QuerySide::Data, &kind), vec![Entity::new(3).to_bits(), Entity::new(1).to_bits()]);
    assert_eq!(filter.targets(QuerySide::Filter, &kind), vec![Entity::new(3).to_bits()]);
    assert_eq!(filter.targets(QuerySide::Data, &other), vec![Entity::new(1).to_bits()]);
}
