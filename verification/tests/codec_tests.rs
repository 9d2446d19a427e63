use todo_tasks::codec::{load_tasks_from_text, tasks_to_text};
use todo_tasks::task::Task;

fn task(title: &str, description: &str, completed: bool) -> Task {
    let mut t = Task::new(title.to_string(), description.to_string());
    t.completed = completed;
    t
}

#[test]
fn to_string_uses_the_three_line_record_format() {
    let t = task("Buy milk", "2 liters", false);
    assert_eq!(t.to_string(), "Title: Buy milk\nDescription: 2 liters\nCompleted: false\n");
    let done = task("a", "b", true);
    assert_eq!(done.to_string(), "Title: a\nDescription: b\nCompleted: true\n");
}

#[test]
fn from_string_reads_the_three_fields() {
    let t = Task::from_string("Title: Buy milk\nDescription: 2 liters\nCompleted: true\n");
    assert_eq!(t.title, "Buy milk");
    assert_eq!(t.description, "2 liters");
    assert!(t.completed);
}

#[test]
fn from_string_without_recognized_keys_gives_the_empty_task() {
    let t = Task::from_string("Foo: bar");
    assert_eq!(t.title, "");
    assert_eq!(t.description, "");
    assert!(!t.completed);
}

#[test]
fn from_string_ignores_unrecognized_keys() {
    let t = Task::from_string("Title: a\nFoo: bar\nDescription: b\nCompleted: false\n");
    assert_eq!(t.title, "a");
    assert_eq!(t.description, "b");
    assert!(!t.completed);
}

#[test]
fn from_string_trims_the_completed_value() {
    let t = Task::from_string("Title: a\nDescription: b\nCompleted:  true \n");
    assert!(t.completed);
}

#[test]
fn from_string_completed_is_case_sensitive() {
    let t = Task::from_string("Title: a\nDescription: b\nCompleted: True\n");
    assert!(!t.completed);
}

#[test]
fn from_string_keeps_the_last_value_of_a_repeated_key() {
    let t = Task::from_string("Title: first\nTitle: second\n");
    assert_eq!(t.title, "second");
}

#[test]
fn from_string_splits_on_the_first_separator_only() {
    let t = Task::from_string("Title: a: b\nDescription: c\n");
    assert_eq!(t.title, "a: b");
    assert_eq!(t.description, "c");
}

#[test]
fn tasks_to_text_writes_each_record_with_a_blank_line() {
    let tasks = vec![task("a", "1", false), task("b", "2", true)];
    assert_eq!(
        tasks_to_text(&tasks),
        "Title: a\nDescription: 1\nCompleted: false\n\nTitle: b\nDescription: 2\nCompleted: true\n\n"
    );
}

#[test]
fn load_of_empty_text_gives_no_tasks() {
    assert!(load_tasks_from_text("").is_empty());
}

#[test]
fn load_decodes_a_trailing_block_without_a_blank_line() {
    let tasks = load_tasks_from_text("Title: a\nDescription: b\nCompleted: false");
    assert_eq!(tasks.len(), 1);
    assert_eq!(tasks[0].title, "a");
    assert_eq!(tasks[0].description, "b");
}

#[test]
fn load_skips_extra_blank_lines() {
    let tasks = load_tasks_from_text("\n\nTitle: a\n\n\nTitle: b\n\n");
    assert_eq!(tasks.len(), 2);
    assert_eq!(tasks[0].title, "a");
    assert_eq!(tasks[1].title, "b");
}

#[test]
fn save_then_load_reproduces_the_tasks() {
    let tasks = vec![
        task("Buy milk", "2 liters", false),
        task("Call home", "", true),
        task("", "no title here", false),
        task("colon: inside", "value: with: colons", true),
    ];
    let text = tasks_to_text(&tasks);
    let loaded = load_tasks_from_text(&text);
    assert_eq!(loaded.len(), tasks.len());
    for (a, b) in tasks.iter().zip(loaded.iter()) {
        assert_eq!(a.title, b.title);
        assert_eq!(a.description, b.description);
        assert_eq!(a.completed, b.completed);
    }
}

#[test]
fn save_then_load_of_an_empty_list_is_empty() {
    let tasks: Vec<Task> = Vec::new();
    let text = tasks_to_text(&tasks);
    assert_eq!(text, "");
    assert!(load_tasks_from_text(&text).is_empty());
}
