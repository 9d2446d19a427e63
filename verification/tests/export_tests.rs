use todo_tasks::export::{tasks_to_json, tasks_to_yaml};
use todo_tasks::task::Task;

fn task(title: &str, description: &str, completed: bool) -> Task {
    let mut t = Task::new(title.to_string(), description.to_string());
    t.completed = completed;
    t
}

#[test]
fn json_of_empty_list_is_the_empty_array() {
    let tasks: Vec<Task> = Vec::new();
    assert_eq!(tasks_to_json(&tasks), "[]");
}

#[test]
fn json_is_pretty_printed_with_lowercase_field_names() {
    let tasks = vec![task("Buy milk", "2 liters", true)];
    let expected = "[\n  {\n    \"title\": \"Buy milk\",\n    \"description\": \"2 liters\",\n    \"completed\": true\n  }\n]";
    assert_eq!(tasks_to_json(&tasks), expected);
}

#[test]
fn json_parses_back_to_the_same_values() {
    let tasks = vec![
        task("quote \" and backslash \\", "line\nbreak and tab\t", false),
        task("plain", "control \u{1} char", true),
    ];
    let text = tasks_to_json(&tasks);
    let value: serde_json::Value = serde_json::from_str(&text).unwrap();
    let entries = value.as_array().unwrap();
    assert_eq!(entries.len(), 2);
    for (t, entry) in tasks.iter().zip(entries.iter()) {
        assert_eq!(entry.get("title").unwrap().as_str().unwrap(), t.title);
        assert_eq!(entry.get("description").unwrap().as_str().unwrap(), t.description);
        assert_eq!(entry.get("completed").unwrap().as_bool().unwrap(), t.completed);
    }
}

#[test]
fn yaml_of_empty_list_is_the_empty_sequence() {
    let tasks: Vec<Task> = Vec::new();
    let text = tasks_to_yaml(&tasks);
    assert_eq!(text, "[]\n");
    let value: serde_yaml::Value = serde_yaml::from_str(&text).unwrap();
    assert_eq!(value.as_sequence().unwrap().len(), 0);
}

#[test]
fn yaml_is_a_block_sequence_of_mappings() {
    let tasks = vec![task("Buy milk", "2 liters", false), task("a", "b", true)];
    let expected = "- title: \"Buy milk\"\n  description: \"2 liters\"\n  completed: false\n- title: \"a\"\n  description: \"b\"\n  completed: true\n";
    assert_eq!(tasks_to_yaml(&tasks), expected);
}

#[test]
fn yaml_parses_back_to_the_same_values() {
    let tasks = vec![
        task("quote \" and backslash \\", "line\nbreak and tab\t", true),
        task("", "empty title above", false),
    ];
    let text = tasks_to_yaml(&tasks);
    let value: serde_yaml::Value = serde_yaml::from_str(&text).unwrap();
    let entries = value.as_sequence().unwrap();
    assert_eq!(entries.len(), 2);
    for (t, entry) in tasks.iter().zip(entries.iter()) {
        assert_eq!(entry.get("title").unwrap().as_str().unwrap(), t.title);
        assert_eq!(entry.get("description").unwrap().as_str().unwrap(), t.description);
        assert_eq!(entry.get("completed").unwrap().as_bool().unwrap(), t.completed);
    }
}
