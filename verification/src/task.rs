//! The task record: a title, a description, and a completion flag.

use vstd::prelude::*;

verus! {

/// One to-do item. A task has no stable identity of its own: it is addressed
/// solely by its 1-based position within the store's current ordering.
pub struct Task {
    pub title: String,
    pub description: String,
    pub completed: bool,
}

/// The mathematical value of a task: the two text fields as character
/// sequences, plus the completion flag.
pub ghost struct TaskView {
    pub title: Seq<char>,
    pub description: Seq<char>,
    pub completed: bool,
}

impl View for Task {
    type V = TaskView;

    open spec fn view(&self) -> TaskView {
        TaskView {
            title: self.title@,
            description: self.description@,
            completed: self.completed,
        }
    }
}

/// The views of a whole task list.
pub open spec fn views_of(tasks: Seq<Task>) -> Seq<TaskView> {
    tasks.map_values(|t: Task| t@)
}

impl Clone for Task {
    fn clone(&self) -> (t: Task)
        ensures
            t@ == self@,
    {
        Task {
            title: self.title.clone(),
            description: self.description.clone(),
            completed: self.completed,
        }
    }
}

impl Task {
    /// A freshly created task carries the given texts and starts out
    /// not completed.
    pub fn new(title: String, description: String) -> (t: Task)
        ensures
            t@ == (TaskView { title: title@, description: description@, completed: false }),
    {
        Task { title, description, completed: false }
    }
}

} // verus!
