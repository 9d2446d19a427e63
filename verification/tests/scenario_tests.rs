use todo_tasks::codec::{load_tasks_from_text, tasks_to_text};
use todo_tasks::export::tasks_to_json;
use todo_tasks::store::TaskStore;

#[test]
fn end_to_end_add_view_complete_export() {
    let mut store = TaskStore::new();
    store.add("Buy milk".to_string(), "2 liters".to_string());

    let entries = store.view_tasks();
    assert_eq!(entries.len(), 1);
    assert_eq!(entries[0].0, 1);
    assert_eq!(entries[0].1.title, "Buy milk");
    assert_eq!(entries[0].1.description, "2 liters");
    assert!(!entries[0].1.completed);

    assert_eq!(store.mark_complete(1), Ok(()));
    let entries = store.view_tasks();
    assert!(entries[0].1.completed);

    let json = tasks_to_json(store.tasks());
    let value: serde_json::Value = serde_json::from_str(&json).unwrap();
    let objects = value.as_array().unwrap();
    assert_eq!(objects.len(), 1);
    assert_eq!(objects[0].get("title").unwrap().as_str().unwrap(), "Buy milk");
    assert_eq!(objects[0].get("description").unwrap().as_str().unwrap(), "2 liters");
    assert_eq!(objects[0].get("completed").unwrap().as_bool().unwrap(), true);
}

#[test]
fn a_full_run_survives_saving_and_reloading() {
    let mut store = TaskStore::new();
    store.add("one".to_string(), "first".to_string());
    store.add("two".to_string(), "second".to_string());
    store.add("three".to_string(), "third".to_string());
    assert_eq!(store.mark_complete(2), Ok(()));
    assert_eq!(store.delete(1), Ok(()));

    let text = tasks_to_text(store.tasks());
    let reloaded = TaskStore::from_tasks(load_tasks_from_text(&text));

    let entries = reloaded.view_tasks();
    assert_eq!(entries.len(), 2);
    assert_eq!(entries[0].1.title, "two");
    assert!(entries[0].1.completed);
    assert_eq!(entries[1].1.title, "three");
    assert!(!entries[1].1.completed);
}
