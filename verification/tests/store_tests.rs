use todo_tasks::store::{NotFound, TaskStore};
use todo_tasks::task::Task;

fn triples(store: &TaskStore) -> Vec<(usize, String, String, bool)> {
    store
        .view_tasks()
        .into_iter()
        .map(|(position, task)| (position, task.title, task.description, task.completed))
        .collect()
}

fn sample_store() -> TaskStore {
    let mut store = TaskStore::new();
    store.add("one".to_string(), "first".to_string());
    store.add("two".to_string(), "second".to_string());
    store.add("three".to_string(), "third".to_string());
    store
}

#[test]
fn add_appends_incomplete_task() {
    let mut store = TaskStore::new();
    assert_eq!(store.len(), 0);
    store.add("Buy milk".to_string(), "2 liters".to_string());
    assert_eq!(store.len(), 1);
    let entries = store.view_tasks();
    assert_eq!(entries.len(), 1);
    assert_eq!(entries[0].0, 1);
    assert_eq!(entries[0].1.title, "Buy milk");
    assert_eq!(entries[0].1.description, "2 liters");
    assert!(!entries[0].1.completed);
}

#[test]
fn view_pairs_tasks_with_one_based_positions() {
    let store = sample_store();
    let entries = store.view_tasks();
    assert_eq!(entries.len(), 3);
    for (index, (position, _)) in entries.iter().enumerate() {
        assert_eq!(*position, index + 1);
    }
    assert_eq!(entries[2].1.title, "three");
}

#[test]
fn edit_changes_only_the_addressed_task() {
    let mut store = sample_store();
    let result = store.edit(2, "new title".to_string(), "new description".to_string());
    assert_eq!(result, Ok(()));
    let entries = triples(&store);
    assert_eq!(entries[0], (1, "one".to_string(), "first".to_string(), false));
    assert_eq!(
        entries[1],
        (2, "new title".to_string(), "new description".to_string(), false)
    );
    assert_eq!(entries[2], (3, "three".to_string(), "third".to_string(), false));
}

#[test]
fn edit_keeps_the_completion_flag() {
    let mut store = sample_store();
    assert_eq!(store.mark_complete(2), Ok(()));
    assert_eq!(store.edit(2, "renamed".to_string(), "kept".to_string()), Ok(()));
    let entries = store.view_tasks();
    assert!(entries[1].1.completed);
    assert_eq!(entries[1].1.title, "renamed");
}

#[test]
fn delete_shifts_later_tasks_down_by_one() {
    let mut store = sample_store();
    assert_eq!(store.delete(2), Ok(()));
    let entries = triples(&store);
    assert_eq!(entries.len(), 2);
    assert_eq!(entries[0], (1, "one".to_string(), "first".to_string(), false));
    assert_eq!(entries[1], (2, "three".to_string(), "third".to_string(), false));
}

#[test]
fn boundary_positions_are_exact() {
    let mut store = sample_store();
    assert_eq!(store.mark_complete(3), Ok(()));
    assert_eq!(store.mark_complete(4), Err(NotFound));
    assert_eq!(store.edit(3, "t".to_string(), "d".to_string()), Ok(()));
    assert_eq!(store.edit(4, "t".to_string(), "d".to_string()), Err(NotFound));
    assert_eq!(store.delete(4), Err(NotFound));
    assert_eq!(store.delete(3), Ok(()));
}

#[test]
fn out_of_range_positions_leave_the_store_unchanged() {
    let mut store = sample_store();
    let before = triples(&store);
    assert_eq!(store.edit(0, "x".to_string(), "y".to_string()), Err(NotFound));
    assert_eq!(store.edit(4, "x".to_string(), "y".to_string()), Err(NotFound));
    assert_eq!(store.delete(0), Err(NotFound));
    assert_eq!(store.delete(4), Err(NotFound));
    assert_eq!(store.mark_complete(0), Err(NotFound));
    assert_eq!(store.mark_complete(4), Err(NotFound));
    assert_eq!(triples(&store), before);
}

#[test]
fn mark_complete_twice_is_not_an_error() {
    let mut store = TaskStore::new();
    store.add("only".to_string(), "task".to_string());
    assert_eq!(store.mark_complete(1), Ok(()));
    assert!(store.view_tasks()[0].1.completed);
    assert_eq!(store.mark_complete(1), Ok(()));
    assert!(store.view_tasks()[0].1.completed);
}

#[test]
fn delete_last_task_then_delete_on_empty_store() {
    let mut store = TaskStore::new();
    store.add("only".to_string(), "task".to_string());
    assert_eq!(store.delete(1), Ok(()));
    assert_eq!(store.len(), 0);
    assert_eq!(store.delete(1), Err(NotFound));
    assert_eq!(store.len(), 0);
}

#[test]
fn from_tasks_keeps_the_given_order() {
    let tasks = vec![
        Task::new("a".to_string(), "1".to_string()),
        Task::new("b".to_string(), "2".to_string()),
    ];
    let store = TaskStore::from_tasks(tasks);
    let entries = store.view_tasks();
    assert_eq!(entries[0].1.title, "a");
    assert_eq!(entries[1].1.title, "b");
}
