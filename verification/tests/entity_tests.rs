use apecs::bundle::AnyBundle;
use apecs::components::AllArchetypes;
use apecs::entity::{Entities, LazyOp};
use apecs::entry::Entry;
use apecs::join::IdIter;
use apecs::query::QueryColumn;
use apecs::system::{
    and_message, batch_outcome, combine_errors, current_iteration, end, err, increment_current_iteration, ok, ShouldContinue, SystemClock,
};
use apecs::tracking::{TrackedIter, Tracker, Tracking};
use apecs::world::{thread_count, threads_for, Parallelism};

const STR: u64 = 1;
const BOOL: u64 = 2;
const U32: u64 = 3;

#[derive(Debug, Clone, PartialEq)]
enum Val {
    Str(String),
    Bool(bool),
    U32(u32),
}

#[test]
fn mod_entities_create() {
    let mut entities = Entities::default();
    let a = entities.create();
    let b = entities.create();
    let c = entities.create();

    assert_eq!(a.id(), 0);
    assert_eq!(b.id(), 1);
    assert_eq!(c.id(), 2);
    assert_eq!(entities.alive_len(), 3);
}

#[test]
fn mod_entity_create_storage_insert() {
    let mut entities = Entities::default();
    let mut all: AllArchetypes<u32> = AllArchetypes::default();
    for _ in 0..10000 {
        let e = entities.create();
        let _ = all.insert_component(e.id(), 0, 0u32, 0);
    }
    assert_eq!(all.len(), 10000);
    assert_eq!(entities.alive_len(), 10000);
}

#[test]
fn deleted_entities() {
    let mut clock = SystemClock::new();
    let mut entities = Entities::default();
    let mut components: AllArchetypes<Val> = AllArchetypes::default();
    let mut ops = vec![];
    for i in 0..10u32 {
        let bundle = AnyBundle::from_pairs(
            &[STR, BOOL, U32],
            vec![Val::Str("hello".to_string()), Val::Bool(false), Val::U32(i)],
        )
        .unwrap();
        ops.push(entities.create().insert_bundle(bundle));
    }
    assert_eq!(10, entities.alive_len());
    // the world's tick applies the lazy changes
    for op in ops {
        op.apply(&mut components, current_iteration(&clock));
    }
    increment_current_iteration(&mut clock);
    {
        let q = components.query(&[QueryColumn::Ref(U32)]);
        let row = q.find_one(9).unwrap();
        assert_eq!(row[0].unwrap().value, Val::U32(9));
    }
    let entity = entities.hydrate(9).unwrap();
    entities.destroy(entity);
    entities.upkeep(&mut components, current_iteration(&clock));
    increment_current_iteration(&mut clock);

    assert_eq!(9, entities.alive_len());
    let deleted_strings = entities.deleted_iter_of(STR);
    assert_eq!(9, deleted_strings[0].id());
    assert_eq!(deleted_strings[0].changed, 1);
    assert!(entities.hydrate(9).is_none());
    assert!(components.lookup_of(9).is_none());
    assert_eq!(entities.deleted_iter().len(), 1);
}

#[test]
fn can_run_archetype_storage_upkeep() {
    let mut entities = Entities::default();
    let mut all: AllArchetypes<usize> = AllArchetypes::default();
    let a = entities.create();
    let b = entities.create();
    let c = entities.create();
    for (ent, i) in vec![a, b, c].into_iter().zip(0usize..) {
        all.insert_component(ent.id(), 7, i, 0);
    }
    entities.destroy(c);
    entities.upkeep(&mut all, 1);
    let q = all.query(&[QueryColumn::Ref(7)]);
    let ids = q.iter_mut().into_iter().map(|(id, _)| id).collect::<Vec<_>>();
    assert_eq!(ids, vec![0, 1]);
    assert!(entities.hydrate(2).is_none());
    // the freed id is recycled by the next create
    let d = entities.create();
    assert_eq!(d.id(), 2);
    assert_eq!(d.gen(), c.gen() + 1);
}

#[test]
fn entities_create_many_destroy_all() {
    let mut entities = Entities::new();
    let ids = entities.create_many(4);
    assert_eq!(ids, vec![0, 1, 2, 3]);
    let alive = entities.alive_iter().into_iter().map(|e| e.id()).collect::<Vec<_>>();
    assert_eq!(alive, vec![0, 1, 2, 3]);
    entities.destroy_all();
    let mut all: AllArchetypes<bool> = AllArchetypes::default();
    entities.upkeep(&mut all, 5);
    assert_eq!(entities.alive_len(), 0);
    assert!(entities.alive_iter().is_empty());
    let again = entities.create_many(2);
    assert_eq!(again, vec![3, 2]);
}

#[test]
fn entities_create_after_create_many() {
    let mut entities = Entities::new();
    let ids = entities.create_many(3);
    assert_eq!(ids, vec![0, 1, 2]);
    assert!(entities.can_create());
    let e = entities.create();
    assert_eq!(e.id(), 3);
    assert_eq!(e.gen(), 0);
    assert!(!ids.contains(&e.id()));
    assert_eq!(entities.alive_len(), 4);
}

#[test]
fn entities_lazy_ops_only_for_alive_ids() {
    let mut entities = Entities::new();
    let e = entities.create();
    let mut all: AllArchetypes<Val> = AllArchetypes::default();
    let op = entities.insert_component(e.id(), U32, Val::U32(5)).unwrap();
    op.apply(&mut all, 0);
    assert!(entities.insert_component(42, U32, Val::U32(5)).is_none());
    assert!(entities.remove_component::<Val>(42, U32).is_none());
    let op = entities.remove_component::<Val>(e.id(), U32).unwrap();
    assert!(matches!(op, LazyOp::RemoveComponent { entity: 0, ty: U32 }));
    op.apply(&mut all, 1);
    assert!(all.is_empty() || all.entity_types(0).to_vec().is_empty());
    let b = AnyBundle::from_pairs(&[BOOL], vec![Val::Bool(true)]).unwrap();
    entities.insert_bundle(e.id(), b).unwrap().apply(&mut all, 2);
    assert_eq!(all.entity_types(0).to_vec(), vec![BOOL]);
}

fn changed(store: &AllArchetypes<f32>, tracker: &Tracker<f32>) -> Vec<(usize, f32)> {
    let q = store.query(&[QueryColumn::Ref(1)]);
    q.iter_mut()
        .into_iter()
        .filter_map(|(id, r)| {
            let e = r[0].unwrap();
            if e.has_changed_since(tracker.last_update()) {
                Some((id, e.value))
            } else {
                None
            }
        })
        .collect::<Vec<_>>()
}

#[test]
fn can_track_archetypes() {
    let mut clock = SystemClock::new();
    let mut tracker = Tracker::<f32>::new();
    let mut store: AllArchetypes<f32> = AllArchetypes::default();
    store.insert_component(0, 1, 0.0f32, current_iteration(&clock));
    store.insert_component(1, 1, 1.0f32, current_iteration(&clock));
    store.insert_component(2, 1, 2.0f32, current_iteration(&clock));
    assert_eq!(vec![(0, 0.0), (1, 1.0), (2, 2.0)], changed(&store, &tracker));
    increment_current_iteration(&mut clock);
    tracker.clear(current_iteration(&clock));
    store.insert_component(1, 1, 100.0, current_iteration(&clock));
    assert_eq!(vec![(1, 100.0)], changed(&store, &tracker));
    increment_current_iteration(&mut clock);
    tracker.clear(current_iteration(&clock));
    store.remove(0);
    store.remove(2);
    assert!(changed(&store, &tracker).is_empty());
}

#[test]
fn can_join_tracked() {
    let mut tracker = Tracker::<u32>::new();
    let entries = vec![
        Entry::new(0, 0u32, 0),
        Entry { value: 1u32, key: 1, changed: 3, added: false },
        Entry::new(2, 2u32, 3),
    ];
    tracker.clear(3);
    let mut added = tracker.added_iter(IdIter::new(entries.clone()));
    assert_eq!(added.next().map(|e| e.key), Some(2));
    assert!(added.next().is_none());
    let mut modified = tracker.modified_iter(IdIter::new(entries.clone()));
    assert_eq!(modified.next().map(|e| e.key), Some(1));
    assert!(modified.next().is_none());
    let mut changed = tracker.changed_iter(IdIter::new(entries.clone()));
    assert_eq!(changed.next().map(|e| e.key), Some(1));
    assert_eq!(changed.next().map(|e| e.key), Some(2));
    assert!(changed.next().is_none());
    let mut manual = TrackedIter(0, IdIter::new(entries), Tracking::Added);
    assert_eq!(manual.next().map(|e| e.key), Some(0));
}

#[test]
fn sanity_check_separated() {
    let mut tracker = Tracker::<u32>::new();
    assert_eq!(tracker.last_update(), 0);
    assert!(tracker.deleted(IdIter::new(vec![0usize, 1, 2])).is_empty());
    assert_eq!(tracker.deleted(IdIter::new(vec![1usize])), vec![0, 2]);
    assert_eq!(tracker.deleted(IdIter::new(vec![1usize, 5])), Vec::<usize>::new());
}

#[test]
fn entry_tracks_changes() {
    let mut e = Entry::new(3, "a", 2);
    assert!(e.was_added_since(2));
    assert!(!e.was_modified_since(2));
    e.set_value("b", 4);
    assert_eq!(*e.value(), "b");
    assert!(e.was_modified_since(3));
    assert!(!e.was_added_since(3));
    assert_eq!(e.replace_value("c", 5), "b");
    assert_eq!(e.last_changed(), 5);
    e.mark_changed(9);
    assert!(e.has_changed_since(9));
    assert!(!e.has_changed_since(10));
    assert_eq!(e.split(), (3, "c"));
}

#[test]
fn system_results_and_clock() {
    assert!(matches!(ok(), Ok(ShouldContinue::Yes)));
    assert!(matches!(end(), Ok(ShouldContinue::No)));
    let e = err(anyhow::Error::msg("boom"));
    assert_eq!(e.unwrap_err().to_string(), "boom");
    let mut clock = SystemClock::new();
    assert_eq!(current_iteration(&clock), 0);
    assert_eq!(increment_current_iteration(&mut clock), 0);
    assert_eq!(current_iteration(&clock), 1);
}

#[test]
fn world_thread_counts() {
    assert_eq!(threads_for(Parallelism::Explicit(4), 16), 4);
    assert_eq!(threads_for(Parallelism::Explicit(0), 16), 1);
    assert_eq!(threads_for(Parallelism::Automatic, 16), 16);
    assert_eq!(thread_count(Parallelism::Explicit(3)), 3);
    assert!(thread_count(Parallelism::Automatic) >= 1);
}

#[test]
fn schedule_batch_outcome_keeps_running_systems() {
    let results = vec![
        ("a", ok()),
        ("b", end()),
        ("c", err(anyhow::Error::msg("c failed"))),
        ("d", ok()),
        ("e", err(anyhow::Error::msg("e failed"))),
    ];
    let (running, errors) = batch_outcome(results);
    assert_eq!(running, vec!["a", "d"]);
    assert_eq!(errors.iter().map(|e| e.to_string()).collect::<Vec<_>>(), vec!["c failed", "e failed"]);
    let combined = combine_errors(errors).unwrap_err();
    assert_eq!(combined.to_string(), "and e failed");
    assert_eq!(combined.root_cause().to_string(), "c failed");
    assert!(combine_errors(vec![]).is_ok());
    assert_eq!(combine_errors(vec![anyhow::Error::msg("only")]).unwrap_err().to_string(), "only");
}

#[test]
fn combine_errors_chains_each_later_error() {
    let errors = vec![
        anyhow::Error::msg("first"),
        anyhow::Error::msg("second"),
        anyhow::Error::msg("third"),
    ];
    let combined = combine_errors(errors).unwrap_err();
    assert_eq!(combined.to_string(), "and third");
    let chain = combined.chain().map(|e| e.to_string()).collect::<Vec<_>>();
    assert_eq!(chain, vec!["and third", "and second", "first"]);
    assert_eq!(and_message("x failed".to_string()), "and x failed");
}

#[test]
fn readme() {}

#[test]
fn lazy_op_is_ok_checks_bundles() {
    let good = AnyBundle::from_pairs(&[STR, BOOL], vec![Val::Str("a".to_string()), Val::Bool(true)]).unwrap();
    assert!(LazyOp::InsertBundle { entity: 0, bundle: good }.is_ok());
    let bad: AnyBundle<Val> = AnyBundle(AnyBundle::<Val>::from_pairs(&[BOOL, STR], vec![Val::Bool(true), Val::Str("b".to_string())]).unwrap().0, vec![]);
    assert!(!LazyOp::InsertBundle { entity: 0, bundle: bad }.is_ok());
    assert!(!LazyOp::<Val>::InsertComponent { entity: usize::MAX, ty: U32, component: Val::U32(1) }.is_ok());
    assert!(LazyOp::<Val>::RemoveComponent { entity: usize::MAX, ty: U32 }.is_ok());
}
