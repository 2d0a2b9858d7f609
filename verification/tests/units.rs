use bevy_ecs_core::component::{Components, ComponentDescriptor, StorageType};
use bevy_ecs_core::core_schedule::{CoreSchedule, CoreSet, ScheduleSystem, StartupSet};
use bevy_ecs_core::editable_text::{
    apply_text_edits, process_text_inputs, ButtonState, EditableText, Key, KeyboardInput, TextEdit,
};
use bevy_ecs_core::entity::Entity;
use bevy_ecs_core::error::{default_error_handler, EcsErrorContext, ErrorAction, ErrorHandler, FallbackErrorHandler, LogLevel};
use bevy_ecs_core::fetch::{
    ComponentLocation, EntityFetch, EntityState, Fetch, FetchState, OptionFetch, OptionState, ReadFetch, WriteFetch,
};
use bevy_ecs_core::graph::topological_order;
use bevy_ecs_core::keymap::KeyMap;
use bevy_ecs_core::observer::{Observer, ObserverDescriptor, ObserverSystem, ObserverRunner, Observers, ADD, REMOVE};
use bevy_ecs_core::query::{
    Access, Table, accepted_rows, archetype_index_range, batch_ranges, iteration_plan, parallel_plan, AccessConflict, Archetype, EntityLocation,
    ChangeTrackersState, FilteredAccess, QueryAccessCache, QueryEntityError, QueryRelationFilter, QuerySide,
    ReadRelationState, ReadState, WriteState,
};
use bevy_ecs_core::query_state::QueryState;
use std::any::TypeId;
use bevy_ecs_core::animation::rsqrt_seed;
use bevy_ecs_core::bundle::BundleWriter;
use bevy_ecs_core::world::World;
use bevy_ecs_core::layout::{
    AlignContent, AlignItems, AlignSelf, FlexDirection, JustifyContent, LayoutStrategy, Overflow,
    PositionType, TextDirection, Wrap,
};
use bevy_ecs_core::component::RelationKindId;
use bevy_ecs_core::stage::{
    DuplicateLabelStrategy, Group, LabelSet, ParallelSystemDescriptor, RunCriteriaDescriptor, RunCriteriaDescriptorOrLabel,
    ExecutorKind, StageError, SystemDescriptor, SystemId, SystemSet, SystemStage,
};
use bevy_ecs_core::stage_run::{PassPlan, PassStep};
use bevy_ecs_core::states::{apply_state_transition, run_enter_schedule, NextState, OnTransition, State};
use bevy_ecs_core::targets::targets_new;
use bevy_ecs_core::ticks::ComponentTicks;
use std::collections::VecDeque;

#[test]
fn entity_bits_round_trip() {
    let e = Entity::new(7);
    assert_eq!(e.index(), 7);
    assert_eq!(e.generation(), 0);
    assert_eq!(Entity::from_bits(e.to_bits()), e);
    assert_eq!(Entity::from_bits(5u64 << 32 | 3).index(), 3);
    assert_eq!(Entity::from_bits(5u64 << 32 | 3).generation(), 5);
}

#[test]
fn ticks_detect_changes_across_wrapping() {
    let mut t = ComponentTicks::new(10);
    assert!(t.is_added(5, 20));
    assert!(!t.is_added(15, 20));
    t.set_changed(30);
    assert!(t.is_changed(15, 40));
    assert!(!t.is_added(15, 40));
    // a stored tick older than three quarters of the range is clamped
    let mut old = ComponentTicks::new(0);
    old.check_ticks(u32::MAX);
    assert_eq!(u32::MAX.wrapping_sub(old.added), 3221225469);
}

#[test]
fn component_registry_assigns_kinds_in_order() {
    let mut components = Components::new();
    assert!(components.is_empty());
    let a = components.get_component_kind_or_insert(ComponentDescriptor::new::<u8>("u8".to_string(), StorageType::Table)).id();
    let b = components.get_component_kind_or_insert(ComponentDescriptor::new::<u16>("u16".to_string(), StorageType::SparseSet)).id();
    let a2 = components.get_component_kind_or_insert(ComponentDescriptor::new::<u8>("u8".to_string(), StorageType::Table)).id();
    assert_eq!(a, RelationKindId(0));
    assert_eq!(b, RelationKindId(1));
    assert_eq!(a2, a);
    assert_eq!(components.len(), 2);
    assert_eq!(components.get_relation_kind(b).data_layout().storage_type(), StorageType::SparseSet);
    assert_eq!(components.get_relation_kind(b).data_layout().name(), "u16");
}

#[test]
fn keymap_keeps_one_value_per_key() {
    let mut m: KeyMap<u32> = KeyMap::new();
    m.insert(3, 30);
    m.insert(5, 50);
    m.insert(3, 31);
    assert_eq!(m.len(), 2);
    assert_eq!(m.get(3), Some(&31));
    assert_eq!(m.remove(3), Some(31));
    assert_eq!(m.get(3), None);
    assert!(m.contains_key(5));
}

#[test]
fn observers_run_what_was_registered_and_stop_after_unregistering() {
    let mut observers = Observers::new();
    let watcher = Entity::new(1);
    let target = Entity::new(2);
    let mut descriptor = ObserverDescriptor::from_event(ADD);
    descriptor.watch_component(9);
    observers.register_observer(watcher, ObserverRunner(77), &descriptor);
    // An observer without entities is universal for its event: it runs for every such event,
    // and once more through the component it watches.
    let fired = observers.invoke_targets(ADD, Some(target), &[9]);
    assert_eq!(fired, vec![(watcher, ObserverRunner(77)), (watcher, ObserverRunner(77))]);
    assert_eq!(observers.invoke_targets(ADD, Some(target), &[8]), vec![(watcher, ObserverRunner(77))]);
    assert!(observers.invoke_targets(REMOVE, Some(target), &[9]).is_empty());
    observers.unregister_observer(watcher, &descriptor);
    assert!(observers.invoke_targets(ADD, Some(target), &[9]).is_empty());

    // An observer of one entity runs only for events aimed at that entity.
    let mut targeted = ObserverDescriptor::from_event(ADD);
    targeted.watch_entity(target);
    observers.register_observer(watcher, ObserverRunner(78), &targeted);
    assert_eq!(observers.invoke_targets(ADD, Some(target), &[]), vec![(watcher, ObserverRunner(78))]);
    assert!(observers.invoke_targets(ADD, Some(Entity::new(3)), &[]).is_empty());
}

#[test]
fn topological_order_puts_dependencies_first() {
    let nodes = vec![
        LabelSetNode(LabelSet { labels: vec![2], before: vec![], after: vec![1] }),
        LabelSetNode(LabelSet { labels: vec![1], before: vec![], after: vec![] }),
    ];
    let containers: Vec<_> = nodes.into_iter().map(|n| n.container()).collect();
    assert_eq!(topological_order(&containers).unwrap(), vec![1, 0]);
}

struct LabelSetNode(LabelSet);

impl LabelSetNode {
    fn container(self) -> bevy_ecs_core::stage::SystemContainer {
        bevy_ecs_core::stage::SystemContainer {
            system: SystemId(0),
            deps: self.0,
            run_criteria_index: None,
            run_criteria_label: None,
            dependencies: vec![],
            should_run: false,
        }
    }
}

#[test]
fn query_ranges_and_access() {
    assert_eq!(archetype_index_range(2, 5, 5), (2, 5));
    assert_eq!(batch_ranges(10, 4), vec![(0, 4), (4, 8), (8, 10)]);
    let mut access = FilteredAccess::new();
    assert_eq!(access.add_read(3), Ok(()));
    assert_eq!(access.add_write(3), Err(AccessConflict::ExclusiveAfterShared(3)));
    assert_eq!(access.add_write(4), Ok(()));
    assert_eq!(access.add_read(4), Err(AccessConflict::SharedAfterExclusive(4)));
}

#[test]
fn fetch_states_match_and_locate() {
    let archetype = Archetype { id: 0, table_id: 0, columns: vec![(1, None), (2, None)], component_ids: vec![10, 11] };
    let filter = QueryRelationFilter::new();
    let read = ReadState { relation_kind_id: RelationKindId(2), relation_target: None, storage_type: StorageType::Table };
    let write = WriteState { relation_kind_id: RelationKindId(3), relation_target: None, storage_type: StorageType::SparseSet };
    assert!(read.matches_archetype(&archetype, &filter, QuerySide::Data));
    assert!(!write.matches_archetype(&archetype, &filter, QuerySide::Data));
    assert!(EntityState.matches_archetype(&archetype, &filter, QuerySide::Data));
    assert!(OptionState { state: WriteState { relation_kind_id: RelationKindId(3), relation_target: None, storage_type: StorageType::Table } }
        .matches_archetype(&archetype, &filter, QuerySide::Data));
    let mut access = FilteredAccess::new();
    assert_eq!(read.update_component_access(&mut access), Ok(()));
    assert_eq!(OptionState { state: write }.update_component_access(&mut access), Ok(()));
    assert_eq!(access.reads, vec![2]);
    assert_eq!(access.writes, vec![3]);

    let mut entities = EntityFetch::new();
    entities.set_entities(vec![Entity::new(4), Entity::new(6)]);
    assert_eq!(entities.archetype_fetch(1), Entity::new(6));

    let mut table = ReadFetch::init(&read);
    table.set_archetype(vec![5, 2], vec![Entity::new(4), Entity::new(6)]);
    assert!(table.is_dense());
    assert_eq!(table.archetype_fetch(1), ComponentLocation::TableRow(2));

    let sparse_state = WriteState { relation_kind_id: RelationKindId(3), relation_target: None, storage_type: StorageType::SparseSet };
    let mut sparse = WriteFetch::init(&sparse_state, 1, 9);
    sparse.set_archetype(vec![5, 2], vec![Entity::new(4), Entity::new(6)]);
    assert!(!sparse.is_dense());
    assert_eq!(sparse.archetype_fetch(0), (ComponentLocation::Sparse(Entity::new(4)), 1, 9));

    let mut optional = OptionFetch::init(table);
    assert_eq!(optional.archetype_fetch(0), None);
    optional.set_matches(true);
    assert_eq!(optional.archetype_fetch(0), Some(ComponentLocation::TableRow(5)));
}

#[test]
fn core_sets_run_in_listed_order() {
    let main = CoreSet::base_schedule();
    assert_eq!(main.systems.len(), 7);
    assert!(main.systems.iter().all(|(s, _)| *s == ScheduleSystem::ApplySystemBuffers));
    assert_eq!(main.systems[0].1, Some(CoreSet::FirstFlush));
    assert_eq!(main.sets[1].set, CoreSet::FixedTimestep);
    assert_eq!(main.sets[1].after, vec![CoreSet::FirstFlush]);
    assert_eq!(main.sets[1].before, vec![CoreSet::FixedTimestepFlush]);
    let startup = StartupSet::base_schedule();
    assert_eq!(startup.sets[2].set, StartupSet::PostStartup);
    assert_eq!(startup.sets[2].after, vec![StartupSet::StartupFlush]);
    let outer = CoreSchedule::outer_schedule();
    assert_eq!(outer.systems, vec![(ScheduleSystem::OuterLoop, None)]);
}

#[test]
fn outer_loop_runs_startup_once() {
    let mut run_at_least_once = false;
    assert_eq!(CoreSchedule::outer_loop(&mut run_at_least_once), vec![CoreSchedule::Startup, CoreSchedule::Main]);
    assert!(run_at_least_once);
    assert_eq!(CoreSchedule::outer_loop(&mut run_at_least_once), vec![CoreSchedule::Main]);
}

#[test]
fn error_handlers_report_kind_and_name() {
    let ctx = EcsErrorContext::System { name: "my_system".to_string(), last_run: 3 };
    assert_eq!(ctx.kind(), "system");
    assert_eq!(ctx.name(), "my_system");
    assert_eq!(ctx.message("Boom"), "Encountered an error in system `my_system`: Boom");
    let cmd = EcsErrorContext::EntityCommand { name: "insert".to_string(), entity: Entity::new(1) };
    assert_eq!(cmd.kind(), "entity command");
    assert_eq!(
        ErrorHandler::Warn.handle("Boom", &cmd),
        ErrorAction::Log(LogLevel::Warn, "Encountered an error in entity command `insert`: Boom".to_string())
    );
    assert_eq!(ErrorHandler::Ignore.handle("Boom", &cmd), ErrorAction::Ignore);
    assert!(matches!(ErrorHandler::Panic.handle("Boom", &ctx), ErrorAction::Panic(_)));
    assert_eq!(FallbackErrorHandler::default(), FallbackErrorHandler(ErrorHandler::Panic));
    assert_eq!(default_error_handler(None), ErrorHandler::Panic);
    assert_eq!(default_error_handler(Some(ErrorHandler::Trace)), ErrorHandler::Trace);
}

#[test]
fn state_transitions_apply_once() {
    let mut state = State::new(1u64);
    let mut next = NextState(None);
    assert!(apply_state_transition(&mut state, &mut next).transition.is_none());
    next.set(2);
    let outcome = apply_state_transition(&mut state, &mut next);
    assert!(outcome.next_changed);
    let t = outcome.transition.unwrap();
    assert!(t.on_exit.matches(&1));
    assert!(t.on_transition.matches(&1, &2));
    assert!(!t.on_transition.matches(&2, &1));
    assert!(t.on_enter.matches(&2));
    assert_eq!(*state.get(), 2);
    assert!(next.0.is_none());
    let again = apply_state_transition(&mut state, &mut next);
    assert!(!again.next_changed);
    assert!(again.transition.is_none());
    next.set(2);
    let same = apply_state_transition(&mut state, &mut next);
    assert!(same.next_changed);
    assert!(same.transition.is_none());
    assert!(run_enter_schedule(&state).matches(&2));
    assert!(OnTransition::exact(3u64, 4).matches(&3, &4));
}

fn typed(c: &str) -> KeyboardInput {
    KeyboardInput { logical_key: Key::Character(c.to_string()), state: ButtonState::Pressed }
}

fn pressed(k: Key) -> KeyboardInput {
    KeyboardInput { logical_key: k, state: ButtonState::Pressed }
}

#[test]
fn editable_text_edits() {
    let mut t = EditableText::new();
    t.insert_text("hello");
    assert_eq!(t.current_input, "hello");
    assert_eq!(t.cursor_index, 5);
    t.move_cursor_left();
    t.backspace();
    assert_eq!(t.current_input, "helo");
    assert_eq!(t.cursor_index, 3);
    t.delete();
    assert_eq!(t.current_input, "hel");
    t.delete();
    assert_eq!(t.current_input, "hel");
    t.move_cursor_right();
    assert_eq!(t.cursor_index, 3);
    t.insert_text("é!");
    assert_eq!(t.current_input, "helé!");
    // the cursor is a byte index: "é" takes two bytes
    assert_eq!(t.cursor_index, 6);
    t.move_cursor_left();
    assert_eq!(t.cursor_index, 5);
    t.move_cursor_left();
    assert_eq!(t.cursor_index, 3);
    t.move_cursor_right();
    assert_eq!(t.cursor_index, 5);
    t.backspace();
    assert_eq!(t.current_input, "hel!");
    assert_eq!(t.cursor_index, 3);
    t.clear();
    assert_eq!(t.current_input, "");
    assert_eq!(t.cursor_index, 0);
    t.backspace();
    assert_eq!(t.current_input, "");
}

#[test]
fn keyboard_input_queues_edits_in_order() {
    let mut t = EditableText::new();
    let events = vec![
        typed("a"),
        typed("b"),
        KeyboardInput { logical_key: Key::Character("x".to_string()), state: ButtonState::Released },
        pressed(Key::ArrowLeft),
        pressed(Key::Backspace),
        pressed(Key::Other),
        pressed(Key::ArrowRight),
        typed("c"),
        pressed(Key::Delete),
    ];
    process_text_inputs(&mut t, &events);
    assert_eq!(
        t.pending_edits,
        VecDeque::from(vec![
            TextEdit::Insert("a".to_string()),
            TextEdit::Insert("b".to_string()),
            TextEdit::MoveCursorLeft,
            TextEdit::Backspace,
            TextEdit::MoveCursorRight,
            TextEdit::Insert("c".to_string()),
            TextEdit::Delete,
        ])
    );
    assert_eq!(t.current_input, "");
    let mut texts = vec![t];
    apply_text_edits(&mut texts);
    assert_eq!(texts[0].current_input, "bc");
    assert_eq!(texts[0].cursor_index, 2);
    assert!(texts[0].pending_edits.is_empty());
}

#[test]
fn duplicate_criteria_labels_are_discarded_or_refused() {
    let descriptor = |system: u64, strategy: DuplicateLabelStrategy| RunCriteriaDescriptor {
        system: SystemId(system),
        label: Some(5),
        duplicate_label_strategy: strategy,
        piped: false,
        before: vec![],
        after: vec![],
    };
    let mut stage = SystemStage::parallel()
        .with_system_run_criteria(descriptor(1, DuplicateLabelStrategy::Panic))
        .with_system(SystemDescriptor::Parallel(ParallelSystemDescriptor {
            system: SystemId(10),
            deps: LabelSet::new(),
            run_criteria: Some(RunCriteriaDescriptorOrLabel::Descriptor(descriptor(2, DuplicateLabelStrategy::Discard))),
        }));
    assert_eq!(stage.run_criteria.len(), 2);
    assert_eq!(stage.duplicate_run_criteria_label(), None);
    stage.initialize_systems();
    assert_eq!(stage.run_criteria.len(), 1);
    assert_eq!(stage.run_criteria[0].system, SystemId(1));
    assert_eq!(stage.parallel_systems()[0].run_criteria_index, Some(0));

    let mut refused = SystemStage::parallel()
        .with_system_run_criteria(descriptor(1, DuplicateLabelStrategy::Panic))
        .with_system_run_criteria(descriptor(2, DuplicateLabelStrategy::Panic));
    assert_eq!(refused.duplicate_run_criteria_label(), Some(5));
    assert_eq!(refused.run_criteria.len(), 2);
    assert_eq!(Group::Parallel, Group::Parallel);
}

#[test]
fn missing_labels_are_reported() {
    let mut stage = SystemStage::parallel().with_system(SystemDescriptor::Parallel(ParallelSystemDescriptor {
        system: SystemId(10),
        deps: LabelSet::new(),
        run_criteria: Some(RunCriteriaDescriptorOrLabel::Label(42)),
    }));
    assert_eq!(stage.duplicate_run_criteria_label(), None);
    stage.initialize_systems();
    assert_eq!(stage.rebuild_refusal(), Some(StageError::MissingRunCriteria(42)));

    let mut piped = SystemStage::parallel().with_system_run_criteria(RunCriteriaDescriptor {
        system: SystemId(1),
        label: None,
        duplicate_label_strategy: DuplicateLabelStrategy::Panic,
        piped: true,
        before: vec![],
        after: vec![99],
    });
    piped.initialize_systems();
    assert_eq!(piped.rebuild_refusal(), Some(StageError::MissingPipeInput(0)));

    let mut sound = SystemStage::parallel().with_system_run_criteria(RunCriteriaDescriptor {
        system: SystemId(2),
        label: Some(42),
        duplicate_label_strategy: DuplicateLabelStrategy::Panic,
        piped: false,
        before: vec![],
        after: vec![],
    });
    sound.initialize_systems();
    assert_eq!(sound.rebuild_refusal(), None);
    sound.prepare(0);
    assert!(!sound.systems_modified);
}

#[test]
fn iteration_visits_each_storage_in_match_order() {
    // lengths are indexed by storage id: storage 0 has 2 rows, storage 1 has 1
    let ids = vec![1usize, 0];
    let lens = vec![2usize, 1];
    assert_eq!(iteration_plan(&ids, &lens), vec![(1, 0), (0, 0), (0, 1)]);
    assert_eq!(iteration_plan(&vec![], &lens), vec![]);
}

#[test]
fn parallel_batches_cover_the_same_rows_in_the_same_order() {
    let ids = vec![2usize, 0, 1];
    let lens = vec![5usize, 0, 3];
    let batches = parallel_plan(&ids, &lens, 2);
    assert_eq!(batches, vec![(2, 0, 2), (2, 2, 3), (0, 0, 2), (0, 2, 4), (0, 4, 5)]);
    let mut rows = Vec::new();
    for (id, start, end) in batches {
        for row in start..end {
            rows.push((id, row));
        }
    }
    assert_eq!(rows, iteration_plan(&ids, &lens));
}

#[test]
fn query_plans_follow_dense_or_sparse_storage() {
    let mut cache = QueryAccessCache::new();
    cache.new_archetype(true, 1, 0);
    cache.new_archetype(false, 2, 1);
    cache.new_archetype(true, 0, 0);
    let table_lens = vec![3usize];
    let archetype_lens = vec![1usize, 2, 7];
    let all_tables = vec![vec![true, true, true]];
    let all_archetypes = vec![vec![true], vec![true, true], vec![true; 7]];
    assert_eq!(cache.for_each_plan(true, &table_lens, &archetype_lens, &all_tables), vec![(0, 0), (0, 1), (0, 2)]);
    assert_eq!(cache.for_each_plan(false, &table_lens, &archetype_lens, &all_archetypes), vec![(1, 0), (1, 1), (0, 0)]);
    // rows the filter does not accept are left out
    let some_tables = vec![vec![true, false, true]];
    assert_eq!(cache.for_each_plan(true, &table_lens, &archetype_lens, &some_tables), vec![(0, 0), (0, 2)]);
    let some_archetypes = vec![vec![false], vec![true, false], vec![]];
    assert_eq!(cache.for_each_plan(false, &table_lens, &archetype_lens, &some_archetypes), vec![(1, 0)]);
    assert_eq!(cache.par_for_each_plan(false, &table_lens, &archetype_lens, 1), vec![(1, 0, 1), (1, 1, 2), (0, 0, 1)]);
    assert_eq!(cache.par_for_each_plan(true, &table_lens, &archetype_lens, 2), vec![(0, 0, 2), (0, 2, 3)]);
}

#[test]
fn layout_settings_default_as_documented() {
    assert_eq!(LayoutStrategy::default(), LayoutStrategy::Flex);
    assert_eq!(PositionType::default(), PositionType::Relative);
    assert_eq!(TextDirection::default(), TextDirection::Inherit);
    assert_eq!(Overflow::default(), Overflow::Visible);
    assert_eq!(Wrap::default(), Wrap::NoWrap);
    assert_eq!(FlexDirection::default(), FlexDirection::Row);
    assert_eq!(AlignItems::default(), AlignItems::Stretch);
    assert_eq!(AlignSelf::default(), AlignSelf::Auto);
    assert_eq!(AlignContent::default(), AlignContent::Stretch);
    assert_eq!(JustifyContent::default(), JustifyContent::FlexStart);
}

#[test]
fn query_state_keeps_a_cache_per_relation_filter() {
    let relation_type = TypeId::of::<u32>();
    let term = ReadRelationState { relation_type, relation_kind: RelationKindId(2), storage_type: StorageType::Table };
    let aimed = Entity::new(7).to_bits();
    let mut archetypes = vec![
        Archetype { id: 0, table_id: 0, columns: vec![(1, None)], component_ids: vec![0] },
        Archetype { id: 1, table_id: 1, columns: vec![(2, Some(aimed))], component_ids: vec![1] },
        Archetype { id: 2, table_id: 1, columns: vec![(2, Some(Entity::new(8).to_bits()))], component_ids: vec![2] },
    ];
    let mut state = QueryState::new(5, term, EntityState, &archetypes);
    assert_eq!(state.component_access.reads, vec![2]);
    assert!(state.archetype_component_access.has_read(1) && state.archetype_component_access.has_read(2));
    assert!(!state.archetype_component_access.has_read(0) && !state.archetype_component_access.has_write(1));
    assert_eq!(state.current_query_access_cache().matched_archetype_ids, vec![1, 2]);
    assert_eq!(state.current_query_access_cache().matched_table_ids, vec![1]);

    let filter = QueryRelationFilter::new().add_target_filter(QuerySide::Data, relation_type, Entity::new(7));
    state.set_relation_filter(5, &archetypes, filter);
    assert_eq!(state.relation_filters.len(), 2);
    assert_eq!(state.current_query_access_cache().matched_archetype_ids, vec![1]);

    // the filter that requires nothing was used before: its cache is used again
    state.set_relation_filter(5, &archetypes, QueryRelationFilter::new());
    assert_eq!(state.current_relation_filter, 0);
    assert_eq!(state.relation_filters.len(), 2);

    // a new archetype is looked at by every cache
    archetypes.push(Archetype { id: 3, table_id: 2, columns: vec![(2, Some(aimed)), (5, None)], component_ids: vec![3, 4] });
    state.validate_world_and_update_archetypes(5, &archetypes);
    assert_eq!(state.current_query_access_cache().matched_archetype_ids, vec![1, 2, 3]);
    assert_eq!(state.relation_filter_accesses[1].matched_archetype_ids, vec![1, 3]);
    assert_eq!(state.relation_filter_accesses[1].matched_table_ids, vec![1, 2]);
    assert!(state.archetype_component_access.has_read(3) && !state.archetype_component_access.has_read(4));

    assert_eq!(state.check_entity(None, true), Err(QueryEntityError::NoSuchEntity));
    assert_eq!(
        state.check_entity(Some(EntityLocation { archetype_id: 0, index: 0 }), true),
        Err(QueryEntityError::QueryDoesNotMatch)
    );
    assert_eq!(
        state.check_entity(Some(EntityLocation { archetype_id: 3, index: 0 }), true),
        Ok(EntityLocation { archetype_id: 3, index: 0 })
    );
    assert_eq!(
        state.check_entity(Some(EntityLocation { archetype_id: 3, index: 0 }), false),
        Err(QueryEntityError::QueryDoesNotMatch)
    );
    let accepted = vec![vec![], vec![true, true], vec![true], vec![true]];
    assert_eq!(state.for_each_plan(false, &vec![], &vec![0, 2, 1, 1], &accepted), vec![(1, 0), (1, 1), (2, 0), (3, 0)]);
    let accepted = vec![vec![], vec![false, true], vec![true], vec![false]];
    assert_eq!(state.for_each_plan(false, &vec![], &vec![0, 2, 1, 1], &accepted), vec![(1, 1), (2, 0)]);
    assert_eq!(state.par_for_each_plan(true, &vec![0, 3, 1], &vec![], 2), vec![(1, 0, 2), (1, 2, 3), (2, 0, 1)]);
}

#[test]
fn editable_text_set_input_queue_and_value() {
    let mut text = EditableText::new();
    text.set_input("héllo");
    assert_eq!(text.value(), "héllo".to_string());
    assert_eq!(text.cursor_index, 6);
    text.queue_edit(TextEdit::Backspace);
    text.queue_edit(TextEdit::MoveCursorLeft);
    assert_eq!(text.value(), "héllo".to_string());
    assert_eq!(text.pending_edits, VecDeque::from(vec![TextEdit::Backspace, TextEdit::MoveCursorLeft]));
    text.apply_pending_edits();
    assert_eq!(text.value(), "héll".to_string());
    assert_eq!(text.cursor_index, 4);
    text.set_input("x");
    assert_eq!(text.value(), "x".to_string());
    assert_eq!(text.cursor_index, 1);
}

#[test]
fn rsqrt_seed_halves_the_exponent_bits() {
    // the bits of 1.0 and of 4.0
    assert_eq!(rsqrt_seed(0x3f80_0000), 0x3f5f_fff9);
    assert_eq!(rsqrt_seed(0x4080_0000), 0x3edf_fff9);
    assert_eq!(rsqrt_seed(0), 0x5f1f_fff9);
    let seed = f32::from_bits(rsqrt_seed(4.0f32.to_bits()));
    assert!((seed - 0.5).abs() < 0.1);
    // negative bit patterns are halved as signed integers, rounding down
    assert_eq!(rsqrt_seed(0xFFFF_FFFF), 0x5f1f_fffa);
    assert_eq!(rsqrt_seed(0xFFFF_FFFE), 0x5f1f_fffa);
    assert_eq!(rsqrt_seed(0xBE3F_FFF4), 0x7FFF_FFFF);
    assert_eq!(rsqrt_seed((-4.0f32).to_bits()), (0x5f1f_fff9i32 - ((-4.0f32).to_bits() as i32 >> 1)) as u32);
}

#[test]
fn bundle_writer_writes_staged_components_in_order() {
    let mut world: World<u32> = World::new();
    let e = world.spawn();
    let other = world.spawn();
    let mut writer = BundleWriter::default();
    let mut scratch = writer.begin_entity();
    scratch.push_component(&mut world, ComponentDescriptor::new::<u8>("u8".to_string(), StorageType::Table), 1);
    scratch.push_component(&mut world, ComponentDescriptor::new::<u16>("u16".to_string(), StorageType::SparseSet), 2);
    scratch.push_component(&mut world, ComponentDescriptor::new::<u8>("u8".to_string(), StorageType::Table), 3);
    assert_eq!(world.get(e, TypeId::of::<u8>()), None);
    scratch.write(&mut world, e);
    assert_eq!(world.get(e, TypeId::of::<u8>()), Some(3));
    assert_eq!(world.get(e, TypeId::of::<u16>()), Some(2));
    assert_eq!(world.get(other, TypeId::of::<u8>()), None);
}

#[test]
fn fetch_states_match_tables_and_record_archetype_access() {
    let table = Table { id: 0, columns: vec![(2, None), (7, Some(Entity::new(1).to_bits()))] };
    let none = QueryRelationFilter::new();
    let read = ReadState { relation_kind_id: RelationKindId(2), relation_target: None, storage_type: StorageType::Table };
    let write = WriteState { relation_kind_id: RelationKindId(3), relation_target: None, storage_type: StorageType::Table };
    let relation = ReadRelationState { relation_type: TypeId::of::<u8>(), relation_kind: RelationKindId(7), storage_type: StorageType::Table };
    assert!(read.matches_table(&table, &none, QuerySide::Data));
    assert!(!write.matches_table(&table, &none, QuerySide::Data));
    assert!(relation.matches_table(&table, &none, QuerySide::Data));
    assert!(EntityState.matches_table(&table, &none, QuerySide::Data));

    let archetype = Archetype {
        id: 0,
        table_id: 0,
        columns: vec![(2, None), (3, None), (7, None), (7, Some(Entity::new(1).to_bits()))],
        component_ids: vec![20, 21, 22, 23],
    };
    let mut access = Access::new();
    read.update_archetype_component_access(&archetype, &mut access);
    write.update_archetype_component_access(&archetype, &mut access);
    relation.update_archetype_component_access(&archetype, &mut access);
    assert!(access.has_read(20) && !access.has_write(20));
    assert!(access.has_read(21) && access.has_write(21));
    assert!(access.has_read(22) && access.has_read(23) && !access.has_write(23));
    let mut optional = Access::new();
    OptionState { state: WriteState { relation_kind_id: RelationKindId(9), relation_target: None, storage_type: StorageType::Table } }
        .update_archetype_component_access(&archetype, &mut optional);
    assert!(!optional.has_read(20) && !optional.has_read(21));
    OptionState { state: write }.update_archetype_component_access(&archetype, &mut optional);
    assert!(optional.has_write(21));
}

#[test]
fn fetch_states_register_their_kinds() {
    let mut components = Components::new();
    let read = ReadState::init(&mut components, ComponentDescriptor::new::<u8>("u8".to_string(), StorageType::SparseSet));
    assert_eq!(read.relation_kind_id, RelationKindId(0));
    assert_eq!(read.storage_type, StorageType::SparseSet);
    assert_eq!(read.relation_target, None);
    let write = WriteState::init(&mut components, ComponentDescriptor::new::<u16>("u16".to_string(), StorageType::Table));
    assert_eq!(write.relation_kind_id, RelationKindId(1));
    // the kind of `u8` is registered already: its storage stays that of the first registration
    let trackers = ChangeTrackersState::init(&mut components, ComponentDescriptor::new::<u8>("u8".to_string(), StorageType::Table));
    assert_eq!(trackers.relation_kind_id, RelationKindId(0));
    assert_eq!(trackers.storage_type, StorageType::SparseSet);
    let relation = ReadRelationState::init(&mut components, ComponentDescriptor::new::<u32>("u32".to_string(), StorageType::Table));
    assert_eq!(relation.relation_kind, RelationKindId(2));
    assert_eq!(relation.relation_type, TypeId::of::<u32>());
    assert_eq!(components.len(), 3);
}

#[test]
fn register_command_needs_descriptor_and_observer() {
    let mut observers = Observers::new();
    let watcher = Entity::new(4);
    let descriptor = ObserverDescriptor::from_event(ADD);
    let observer = Observer::new(ObserverSystem { name: "watch".to_string(), exclusive: false }, ObserverRunner(5));
    assert!(!observers.apply_register_command(watcher, None, Some(&observer)));
    assert!(!observers.apply_register_command(watcher, Some(&descriptor), None));
    assert!(observers.invoke_targets(ADD, None, &[]).is_empty());
    assert!(observers.apply_register_command(watcher, Some(&descriptor), Some(&observer)));
    assert_eq!(observers.invoke_targets(ADD, None, &[]), vec![(watcher, ObserverRunner(5))]);

    // triggering moves the trigger id on and hands each runner what was triggered
    let mut trigger_id = 7u32;
    let target = Some(Entity::new(9));
    let calls = observers.invoke(&mut trigger_id, ADD, target, None, &[3, 4]);
    assert_eq!(trigger_id, 8);
    assert_eq!(calls.len(), 1);
    assert_eq!(calls[0].observer, watcher);
    assert_eq!(calls[0].runner, ObserverRunner(5));
    assert_eq!(calls[0].event_type, ADD);
    assert_eq!(calls[0].components, vec![3, 4]);
    assert_eq!(calls[0].current_target, target);
    assert_eq!(calls[0].original_target, None);

    // the trigger id wraps, and an event nobody watches runs nothing
    let mut trigger_id = u32::MAX;
    assert!(observers.invoke(&mut trigger_id, 77, None, None, &[]).is_empty());
    assert_eq!(trigger_id, 0);
}

#[test]
fn query_state_of_two_terms() {
    let relation_type = TypeId::of::<u32>();
    let term = ReadRelationState { relation_type, relation_kind: RelationKindId(2), storage_type: StorageType::Table };
    let aimed = Entity::new(7).to_bits();
    let archetypes = vec![
        Archetype { id: 0, table_id: 0, columns: vec![(1, None)], component_ids: vec![0] },
        Archetype { id: 1, table_id: 1, columns: vec![(2, Some(aimed))], component_ids: vec![1] },
        Archetype { id: 2, table_id: 2, columns: vec![(2, Some(Entity::new(8).to_bits())), (1, None)], component_ids: vec![2, 3] },
    ];
    // the query of every entity with its relations of the kind, without a filter term
    let mut state = QueryState::new(1, (EntityState, term), (), &archetypes);
    assert_eq!(state.component_access.reads, vec![2]);
    assert_eq!(state.current_query_access_cache().matched_archetype_ids, vec![1, 2]);
    let filter = QueryRelationFilter::new().add_target_filter(QuerySide::Data, relation_type, Entity::new(7));
    state.set_relation_filter(1, &archetypes, filter);
    assert_eq!(state.current_query_access_cache().matched_archetype_ids, vec![1]);

    // reading and writing one component in the same query is refused
    let read = ReadState { relation_kind_id: RelationKindId(1), relation_target: None, storage_type: StorageType::Table };
    let write = WriteState { relation_kind_id: RelationKindId(1), relation_target: None, storage_type: StorageType::Table };
    assert_eq!(QueryState::<(WriteState, ReadState), ()>::access_conflict(&(write, read), &()), Some(AccessConflict::SharedAfterExclusive(1)));
    // a filter may touch what the data touches
    let read = ReadState { relation_kind_id: RelationKindId(1), relation_target: None, storage_type: StorageType::Table };
    let write = WriteState { relation_kind_id: RelationKindId(1), relation_target: None, storage_type: StorageType::Table };
    assert_eq!(QueryState::<WriteState, ReadState>::access_conflict(&write, &read), None);
    let state = QueryState::new(1, write, read, &archetypes);
    assert_eq!(state.component_access.writes, vec![1]);
    assert_eq!(state.component_access.reads, vec![1]);
    assert_eq!(state.current_query_access_cache().matched_archetype_ids, vec![0, 2]);
}

/// Counts the entities a query for the entity itself visits, one row per entity, in a world
/// whose archetype `a` holds `lens[a]` entities.
fn entity_count(state: &QueryState<EntityState, ()>, lens: &Vec<usize>, parallel: bool) -> usize {
    let accepted: Vec<Vec<bool>> = lens.iter().map(|n| vec![true; *n]).collect();
    if parallel {
        let batches = state.par_for_each_plan(false, &vec![], lens, 4);
        let rows: Vec<(usize, usize)> = batches
            .iter()
            .flat_map(|(id, start, end)| (*start..*end).map(move |row| (*id, row)))
            .collect();
        accepted_rows(&rows, &accepted).len()
    } else {
        state.for_each_plan(false, &vec![], lens, &accepted).len()
    }
}

fn archetype_update(parallel: bool) {
    // an empty entity lives in archetype 0
    let mut archetypes = vec![Archetype { id: 0, table_id: 0, columns: vec![], component_ids: vec![] }];
    let mut state = QueryState::new(1, EntityState, (), &archetypes);
    assert_eq!(entity_count(&state, &vec![1], parallel), 1);

    // inserting a component moves it to a new archetype, which the query picks up
    archetypes.push(Archetype { id: 1, table_id: 1, columns: vec![(3, None)], component_ids: vec![3] });
    state.validate_world_and_update_archetypes(1, &archetypes);
    assert_eq!(entity_count(&state, &vec![0, 1], parallel), 1);
}

#[test]
fn archetype_update_single_executor() {
    archetype_update(false);
}

#[test]
fn archetype_update_parallel_executor() {
    archetype_update(true);
}

#[test]
fn pass_steps_run_groups_in_order() {
    let plan = PassPlan {
        at_start: vec![SystemId(0)],
        parallel: vec![SystemId(1), SystemId(4)],
        before_commands: vec![SystemId(2)],
        buffers: vec![SystemId(1), SystemId(4)],
        at_end: vec![SystemId(3)],
    };
    assert_eq!(
        plan.steps(),
        vec![
            PassStep::Run(SystemId(0)),
            PassStep::Run(SystemId(1)),
            PassStep::Run(SystemId(4)),
            PassStep::Run(SystemId(2)),
            PassStep::ApplyBuffers(SystemId(1)),
            PassStep::ApplyBuffers(SystemId(4)),
            PassStep::Run(SystemId(3)),
        ]
    );
}

#[test]
fn stage_frames_leave_the_rest_alone() {
    let mut stage = SystemStage::parallel();
    stage.set_apply_buffers(false);
    assert!(!stage.apply_buffers);
    assert!(stage.systems_modified && stage.executor_modified);
    assert_eq!(stage.get_executor_mut(ExecutorKind::SingleThreaded), None);
    assert!(stage.executor_modified);
    assert_eq!(stage.get_executor_mut(ExecutorKind::Parallel), Some(ExecutorKind::Parallel));
}

fn parallel_descriptor(system: u64) -> SystemDescriptor {
    SystemDescriptor::Parallel(ParallelSystemDescriptor { system: SystemId(system), deps: LabelSet::new(), run_criteria: None })
}

/// What a stage holds, as far as runs read it: the system of each container of each group, and
/// the run criteria systems.
fn stage_contents(stage: &SystemStage) -> (Vec<u64>, Vec<u64>, usize) {
    let systems = stage.parallel_systems().iter().map(|c| c.system.0).collect();
    let criteria = stage.run_criteria.iter().map(|c| c.system.0).collect();
    (systems, criteria, stage.uninitialized_parallel.len())
}

#[test]
fn building_a_stage_matches_adding_to_it() {
    let built = SystemStage::parallel().with_system(parallel_descriptor(1)).with_system(parallel_descriptor(2));
    let mut added = SystemStage::parallel();
    added.add_system(parallel_descriptor(1));
    added.add_system(parallel_descriptor(2));
    assert_eq!(stage_contents(&built), stage_contents(&added));
    assert_eq!(stage_contents(&built), (vec![1, 2], vec![], 2));

    let set = || SystemSet { run_criteria: None, systems: vec![parallel_descriptor(3), parallel_descriptor(4)] };
    let built = SystemStage::parallel().with_system_set(set());
    let mut added = SystemStage::parallel();
    added.add_system_set(set());
    assert_eq!(stage_contents(&built), stage_contents(&added));
    assert_eq!(stage_contents(&built), (vec![3, 4], vec![], 2));
}

#[test]
fn parallel_batches_stay_within_batch_size() {
    let mut cache = QueryAccessCache::new();
    cache.new_archetype(true, 0, 0);
    cache.new_archetype(true, 1, 1);
    let table_lens = vec![5usize, 1];
    for batch_size in 1..7 {
        let batches = cache.par_for_each_plan(true, &table_lens, &vec![], batch_size);
        for (id, start, end) in &batches {
            assert!(*start < *end && *end <= table_lens[*id]);
            assert!(end - start <= batch_size);
        }
        let rows: usize = batches.iter().map(|(_, s, e)| e - s).sum();
        assert_eq!(rows, 6);
    }
}
