use counter_store::counter::{Counter, NewCounter, UpdateCounter};
use counter_store::error::StoreError;
use counter_store::schema::migrations;
use counter_store::store::CounterStore;

fn named(name: &str, value: Option<i64>) -> NewCounter {
    NewCounter { name: name.to_string(), value }
}

fn row(id: i64, name: &str, value: i64, at: &str) -> Counter {
    Counter {
        id,
        name: name.to_string(),
        value,
        created_at: at.to_string(),
        updated_at: at.to_string(),
    }
}

fn fresh_store() -> CounterStore {
    let mut store = CounterStore::new();
    assert_eq!(store.initialize(&migrations()), Ok(()));
    store
}

#[test]
fn create_round_trip() {
    let mut store = fresh_store();
    let counter = store
        .create(named("clicks", None), "2024-05-01 10:00:00".to_string())
        .unwrap();
    assert_eq!(counter.id, 1);
    assert_eq!(counter.name, "clicks");
    assert_eq!(counter.value, 0);
    assert_eq!(counter.created_at, "2024-05-01 10:00:00");
    assert_eq!(counter.created_at, counter.updated_at);

    let read = store.get(1).unwrap();
    assert_eq!(read.id, 1);
    assert_eq!(read.name, "clicks");
    assert_eq!(read.value, 0);
    assert_eq!(read.created_at, "2024-05-01 10:00:00");
    assert_eq!(read.updated_at, "2024-05-01 10:00:00");
}

#[test]
fn create_keeps_a_given_value() {
    let mut store = fresh_store();
    let counter = store.create(named("visits", Some(-7)), "t0".to_string()).unwrap();
    assert_eq!(counter.value, -7);
    assert_eq!(store.get(counter.id).unwrap().value, -7);
}

#[test]
fn create_assigns_ascending_ids() {
    let mut store = fresh_store();
    for expected in 1..=5i64 {
        let counter = store.create(named("c", None), "t".to_string()).unwrap();
        assert_eq!(counter.id, expected);
    }
    assert_eq!(store.len(), 5);
}

#[test]
fn create_without_name_is_refused() {
    let mut store = fresh_store();
    let outcome = store.create(named("", None), "t0".to_string());
    assert!(matches!(outcome, Err(StoreError::Validation)));
    assert_eq!(store.len(), 0);
    // the refused request took no id
    let next = store.create(named("a", None), "t1".to_string()).unwrap();
    assert_eq!(next.id, 1);
}

#[test]
fn create_without_name_is_refused_even_with_a_value() {
    let mut store = fresh_store();
    let outcome = store.create(named("", Some(3)), "t0".to_string());
    assert!(matches!(outcome, Err(StoreError::Validation)));
}

#[test]
fn create_fails_when_no_id_is_left() {
    let mut store = CounterStore::restore(Vec::new(), i64::MAX).unwrap();
    let outcome = store.create(named("late", None), "t0".to_string());
    assert!(matches!(outcome, Err(StoreError::Storage)));
    assert_eq!(store.len(), 0);
    // the missing name is reported first
    let unnamed = store.create(named("", None), "t0".to_string());
    assert!(matches!(unnamed, Err(StoreError::Validation)));
}

#[test]
fn create_takes_the_last_id() {
    let mut store = CounterStore::restore(Vec::new(), i64::MAX - 1).unwrap();
    let counter = store.create(named("last", None), "t0".to_string()).unwrap();
    assert_eq!(counter.id, i64::MAX);
    let outcome = store.create(named("none", None), "t1".to_string());
    assert!(matches!(outcome, Err(StoreError::Storage)));
}

#[test]
fn get_on_empty_store_is_not_found() {
    let store = fresh_store();
    assert!(matches!(store.get(9999), Err(StoreError::NotFound)));
}

#[test]
fn get_of_unknown_id_is_not_found() {
    let mut store = fresh_store();
    store.create(named("a", None), "t0".to_string()).unwrap();
    assert!(matches!(store.get(2), Err(StoreError::NotFound)));
    assert!(matches!(store.get(0), Err(StoreError::NotFound)));
    assert!(matches!(store.get(-1), Err(StoreError::NotFound)));
}

#[test]
fn partial_update() {
    let mut store = fresh_store();
    let created = store
        .create(named("a", Some(1)), "2024-05-01 10:00:00".to_string())
        .unwrap();
    let updated = store
        .update(
            UpdateCounter { id: created.id, name: None, value: Some(5) },
            "2024-05-01 10:00:01".to_string(),
        )
        .unwrap();
    assert_eq!(updated.id, created.id);
    assert_eq!(updated.name, "a");
    assert_eq!(updated.value, 5);
    assert_eq!(updated.created_at, "2024-05-01 10:00:00");
    assert_eq!(updated.updated_at, "2024-05-01 10:00:01");
    assert!(updated.updated_at > created.updated_at);

    let read = store.get(created.id).unwrap();
    assert_eq!(read.name, "a");
    assert_eq!(read.value, 5);
    assert_eq!(read.created_at, "2024-05-01 10:00:00");
    assert_eq!(read.updated_at, "2024-05-01 10:00:01");
}

#[test]
fn update_of_name_only_keeps_value() {
    let mut store = fresh_store();
    store.create(named("a", Some(4)), "t0".to_string()).unwrap();
    let updated = store
        .update(UpdateCounter { id: 1, name: Some("b".to_string()), value: None }, "t1".to_string())
        .unwrap();
    assert_eq!(updated.name, "b");
    assert_eq!(updated.value, 4);
    assert_eq!(updated.created_at, "t0");
    assert_eq!(updated.updated_at, "t1");
}

#[test]
fn update_of_both_fields() {
    let mut store = fresh_store();
    store.create(named("a", Some(4)), "t0".to_string()).unwrap();
    let updated = store
        .update(
            UpdateCounter { id: 1, name: Some("z".to_string()), value: Some(-9) },
            "t1".to_string(),
        )
        .unwrap();
    assert_eq!(updated.name, "z");
    assert_eq!(updated.value, -9);
}

#[test]
fn update_without_fields_only_moves_the_instant() {
    let mut store = fresh_store();
    store.create(named("a", Some(4)), "t0".to_string()).unwrap();
    let updated =
        store.update(UpdateCounter { id: 1, name: None, value: None }, "t1".to_string()).unwrap();
    assert_eq!(updated.name, "a");
    assert_eq!(updated.value, 4);
    assert_eq!(updated.created_at, "t0");
    assert_eq!(updated.updated_at, "t1");
}

#[test]
fn update_can_set_an_empty_name() {
    let mut store = fresh_store();
    store.create(named("a", None), "t0".to_string()).unwrap();
    let updated = store
        .update(UpdateCounter { id: 1, name: Some(String::new()), value: None }, "t1".to_string())
        .unwrap();
    assert_eq!(updated.name, "");
    assert_eq!(store.get(1).unwrap().name, "");
}

#[test]
fn update_of_unknown_id_is_not_found() {
    let mut store = fresh_store();
    store.create(named("a", Some(1)), "t0".to_string()).unwrap();
    let outcome =
        store.update(UpdateCounter { id: 2, name: None, value: Some(5) }, "t1".to_string());
    assert!(matches!(outcome, Err(StoreError::NotFound)));
    let kept = store.get(1).unwrap();
    assert_eq!(kept.value, 1);
    assert_eq!(kept.updated_at, "t0");
}

#[test]
fn update_leaves_other_counters_alone() {
    let mut store = fresh_store();
    store.create(named("a", Some(1)), "t0".to_string()).unwrap();
    store.create(named("b", Some(2)), "t0".to_string()).unwrap();
    store.create(named("c", Some(3)), "t0".to_string()).unwrap();
    store.update(UpdateCounter { id: 2, name: None, value: Some(20) }, "t1".to_string()).unwrap();
    let all = store.list();
    assert_eq!(all.len(), 3);
    assert_eq!((all[0].id, all[0].value, all[0].updated_at.as_str()), (1, 1, "t0"));
    assert_eq!((all[1].id, all[1].value, all[1].updated_at.as_str()), (2, 20, "t1"));
    assert_eq!((all[2].id, all[2].value, all[2].updated_at.as_str()), (3, 3, "t0"));
}

#[test]
fn list_is_in_ascending_id_order() {
    let mut store = fresh_store();
    store.create(named("one", None), "t0".to_string()).unwrap();
    store.create(named("two", None), "t1".to_string()).unwrap();
    store.create(named("three", None), "t2".to_string()).unwrap();
    let all = store.list();
    let ids: Vec<i64> = all.iter().map(|counter| counter.id).collect();
    assert_eq!(ids, vec![1, 2, 3]);
    let names: Vec<&str> = all.iter().map(|counter| counter.name.as_str()).collect();
    assert_eq!(names, vec!["one", "two", "three"]);
}

#[test]
fn list_of_empty_store_is_empty() {
    let store = fresh_store();
    assert!(store.list().is_empty());
    assert_eq!(store.len(), 0);
}

#[test]
fn list_stays_ascending_after_delete_and_create() {
    let mut store = fresh_store();
    for _ in 0..4 {
        store.create(named("c", None), "t".to_string()).unwrap();
    }
    store.delete(2).unwrap();
    store.create(named("d", None), "t".to_string()).unwrap();
    let ids: Vec<i64> = store.list().iter().map(|counter| counter.id).collect();
    assert_eq!(ids, vec![1, 3, 4, 5]);
}

#[test]
fn delete_removes_the_counter() {
    let mut store = fresh_store();
    store.create(named("a", None), "t0".to_string()).unwrap();
    store.create(named("b", None), "t0".to_string()).unwrap();
    assert_eq!(store.delete(1), Ok(()));
    assert!(matches!(store.get(1), Err(StoreError::NotFound)));
    assert_eq!(store.get(2).unwrap().name, "b");
    assert_eq!(store.len(), 1);
}

#[test]
fn delete_of_unknown_id_is_not_found() {
    let mut store = fresh_store();
    store.create(named("a", None), "t0".to_string()).unwrap();
    assert_eq!(store.delete(7), Err(StoreError::NotFound));
    assert_eq!(store.len(), 1);
    assert_eq!(store.delete(1), Ok(()));
    assert_eq!(store.delete(1), Err(StoreError::NotFound));
}

#[test]
fn an_id_is_not_given_out_again() {
    let mut store = fresh_store();
    let first = store.create(named("a", None), "t0".to_string()).unwrap();
    store.delete(first.id).unwrap();
    let second = store.create(named("b", None), "t1".to_string()).unwrap();
    assert_eq!(first.id, 1);
    assert_eq!(second.id, 2);
    assert!(matches!(store.get(1), Err(StoreError::NotFound)));
}

#[test]
fn restore_takes_up_rows_and_ids() {
    let rows = vec![row(2, "b", 20, "t0"), row(5, "e", 50, "t1")];
    let mut store = CounterStore::restore(rows, 7).unwrap();
    assert_eq!(store.len(), 2);
    assert_eq!(store.get(5).unwrap().value, 50);
    assert!(matches!(store.get(7), Err(StoreError::NotFound)));
    assert_eq!(store.schema_version(), None);
    let next = store.create(named("n", None), "t2".to_string()).unwrap();
    assert_eq!(next.id, 8);
}

#[test]
fn restore_refuses_what_is_no_store() {
    assert!(matches!(CounterStore::restore(Vec::new(), -1), Err(StoreError::Storage)));
    assert!(matches!(
        CounterStore::restore(vec![row(0, "a", 0, "t")], 3),
        Err(StoreError::Storage)
    ));
    assert!(matches!(
        CounterStore::restore(vec![row(4, "a", 0, "t")], 3),
        Err(StoreError::Storage)
    ));
    assert!(matches!(
        CounterStore::restore(vec![row(2, "a", 0, "t"), row(1, "b", 0, "t")], 3),
        Err(StoreError::Storage)
    ));
    assert!(matches!(
        CounterStore::restore(vec![row(2, "a", 0, "t"), row(2, "b", 0, "t")], 3),
        Err(StoreError::Storage)
    ));
    assert!(CounterStore::restore(vec![row(1, "a", 0, "t"), row(3, "b", 0, "t")], 3).is_ok());
    assert!(CounterStore::restore(Vec::new(), 0).is_ok());
}

#[test]
fn counters_do_not_depend_on_the_schema_ledger() {
    let mut store = CounterStore::new();
    store.create(named("a", Some(1)), "t0".to_string()).unwrap();
    assert_eq!(store.initialize(&migrations()), Ok(()));
    assert_eq!(store.len(), 1);
    assert_eq!(store.get(1).unwrap().value, 1);
}

#[test]
fn clone_of_a_counter_keeps_every_field() {
    let counter = row(3, "c", 30, "t0");
    let copy = counter.clone();
    assert_eq!(copy.id, 3);
    assert_eq!(copy.name, "c");
    assert_eq!(copy.value, 30);
    assert_eq!(copy.created_at, "t0");
    assert_eq!(copy.updated_at, "t0");
}
