//! The task store: an ordered, mutable list of tasks, addressed by
//! 1-based position.

use vstd::prelude::*;
use crate::task::{Task, TaskView, views_of};

verus! {

/// Error returned when a 1-based position does not address any task.
#[derive(Clone, Copy, Debug, PartialEq, Eq, Structural)]
pub struct NotFound;

/// A 1-based position addresses a task exactly when it lies in `[1, length]`.
pub open spec fn valid_position(tasks: Seq<TaskView>, position: int) -> bool {
    1 <= position <= tasks.len()
}

/// The list after adding a task: the new task is appended at the end,
/// not completed.
pub open spec fn added(tasks: Seq<TaskView>, title: Seq<char>, description: Seq<char>) -> Seq<
    TaskView,
> {
    tasks.push(TaskView { title, description, completed: false })
}

/// The list after editing the task at `position`: its texts are replaced,
/// its completion flag and every other task are untouched.
pub open spec fn edited(
    tasks: Seq<TaskView>,
    position: int,
    title: Seq<char>,
    description: Seq<char>,
) -> Seq<TaskView>
    recommends
        valid_position(tasks, position),
{
    tasks.update(
        position - 1,
        TaskView { title, description, completed: tasks[position - 1].completed },
    )
}

/// The list after deleting the task at `position`: every later task moves
/// down by one position.
pub open spec fn deleted(tasks: Seq<TaskView>, position: int) -> Seq<TaskView>
    recommends
        valid_position(tasks, position),
{
    tasks.remove(position - 1)
}

/// The list after marking the task at `position` complete: only its
/// completion flag changes, and it becomes `true` whatever it was.
pub open spec fn marked_complete(tasks: Seq<TaskView>, position: int) -> Seq<TaskView>
    recommends
        valid_position(tasks, position),
{
    tasks.update(
        position - 1,
        TaskView {
            title: tasks[position - 1].title,
            description: tasks[position - 1].description,
            completed: true,
        },
    )
}

/// An ordered collection of tasks, owned for the duration of one run.
pub struct TaskStore {
    tasks: Vec<Task>,
}

impl View for TaskStore {
    type V = Seq<TaskView>;

    closed spec fn view(&self) -> Seq<TaskView> {
        views_of(self.tasks@)
    }
}

impl TaskStore {
    /// An empty store.
    pub fn new() -> (store: TaskStore)
        ensures
            store@ == Seq::<TaskView>::empty(),
    {
        let store = TaskStore { tasks: Vec::new() };
        proof {
            assert(store@ =~= Seq::<TaskView>::empty());
        }
        store
    }

    /// A store holding the given tasks in the given order.
    pub fn from_tasks(tasks: Vec<Task>) -> (store: TaskStore)
        ensures
            store@ == views_of(tasks@),
    {
        TaskStore { tasks }
    }

    /// The tasks in store order, for encoding or display.
    pub fn tasks(&self) -> (tasks: &Vec<Task>)
        ensures
            views_of(tasks@) == self@,
    {
        &self.tasks
    }

    /// The number of tasks held.
    pub fn len(&self) -> (n: usize)
        ensures
            n == self@.len(),
    {
        self.tasks.len()
    }

    /// Appends a new, not yet completed task. Always succeeds; the length
    /// grows by one.
    pub fn add(&mut self, title: String, description: String)
        ensures
            final(self)@ == added(old(self)@, title@, description@),
    {
        let ghost pre = self.tasks@;
        let task = Task::new(title, description);
        self.tasks.push(task);
        proof {
            assert(final(self)@ =~= added(views_of(pre), title@, description@));
        }
    }

    /// Every task paired with its current 1-based position, in order.
    pub fn view_tasks(&self) -> (entries: Vec<(usize, Task)>)
        ensures
            entries@.len() == self@.len(),
            forall|i: int|
                0 <= i < self@.len() ==> (#[trigger] entries@[i]).0 == i + 1 && entries@[i].1@
                    == self@[i],
    {
        let mut entries: Vec<(usize, Task)> = Vec::new();
        let mut i: usize = 0;
        while i < self.tasks.len()
            invariant
                i <= self.tasks.len(),
                entries@.len() == i,
                forall|j: int|
                    0 <= j < i ==> (#[trigger] entries@[j]).0 == j + 1 && entries@[j].1@
                        == self@[j],
            decreases self.tasks.len() - i,
        {
            let task = &self.tasks[i];
            entries.push((i + 1, task.clone()));
            i += 1;
        }
        entries
    }

    /// Replaces the texts of the task at `position` if the position is
    /// valid, and reports `NotFound`, changing nothing, otherwise.
    pub fn edit(&mut self, position: usize, title: String, description: String) -> (result: Result<
        (),
        NotFound,
    >)
        ensures
            valid_position(old(self)@, position as int) ==> result is Ok && final(self)@ == edited(
                old(self)@,
                position as int,
                title@,
                description@,
            ),
            !valid_position(old(self)@, position as int) ==> result is Err && final(self)@ == old(
                self,
            )@,
    {
        if 1 <= position && position <= self.tasks.len() {
            let ghost pre = self.tasks@;
            let completed = self.tasks[position - 1].completed;
            self.tasks.set(position - 1, Task { title, description, completed });
            proof {
                assert(final(self)@ =~= edited(
                    views_of(pre),
                    position as int,
                    title@,
                    description@,
                ));
            }
            Ok(())
        } else {
            Err(NotFound)
        }
    }

    /// Removes the task at `position` if the position is valid, shifting
    /// every later task down by one, and reports `NotFound`, changing
    /// nothing, otherwise.
    pub fn delete(&mut self, position: usize) -> (result: Result<(), NotFound>)
        ensures
            valid_position(old(self)@, position as int) ==> result is Ok && final(self)@ == deleted(
                old(self)@,
                position as int,
            ),
            !valid_position(old(self)@, position as int) ==> result is Err && final(self)@ == old(
                self,
            )@,
    {
        if 1 <= position && position <= self.tasks.len() {
            let ghost pre = self.tasks@;
            self.tasks.remove(position - 1);
            proof {
                assert(final(self)@ =~= deleted(views_of(pre), position as int));
            }
            Ok(())
        } else {
            Err(NotFound)
        }
    }

    /// Sets the completion flag of the task at `position` if the position
    /// is valid, and reports `NotFound`, changing nothing, otherwise.
    /// Marking an already complete task again is not an error.
    pub fn mark_complete(&mut self, position: usize) -> (result: Result<(), NotFound>)
        ensures
            valid_position(old(self)@, position as int) ==> result is Ok && final(self)@
                == marked_complete(old(self)@, position as int),
            !valid_position(old(self)@, position as int) ==> result is Err && final(self)@ == old(
                self,
            )@,
    {
        if 1 <= position && position <= self.tasks.len() {
            let ghost pre = self.tasks@;
            let task = &self.tasks[position - 1];
            let replacement = Task {
                title: task.title.clone(),
                description: task.description.clone(),
                completed: true,
            };
            self.tasks.set(position - 1, replacement);
            proof {
                assert(final(self)@ =~= marked_complete(views_of(pre), position as int));
            }
            Ok(())
        } else {
            Err(NotFound)
        }
    }
}

/// Editing touches exactly the addressed position: the length is kept, the
/// addressed task gets the new texts with its completion flag preserved,
/// and every other position is untouched.
pub proof fn lemma_edit_affects_only_position(
    tasks: Seq<TaskView>,
    position: int,
    title: Seq<char>,
    description: Seq<char>,
)
    requires
        valid_position(tasks, position),
    ensures
        edited(tasks, position, title, description).len() == tasks.len(),
        edited(tasks, position, title, description)[position - 1] == (TaskView {
            title,
            description,
            completed: tasks[position - 1].completed,
        }),
        forall|i: int|
            0 <= i < tasks.len() && i != position - 1 ==> edited(
                tasks,
                position,
                title,
                description,
            )[i] == tasks[i],
{
}

/// Deleting touches exactly the addressed position: positions before it
/// are untouched, and every position after it shifts down by exactly one.
pub proof fn lemma_delete_shifts_down(tasks: Seq<TaskView>, position: int)
    requires
        valid_position(tasks, position),
    ensures
        deleted(tasks, position).len() == tasks.len() - 1,
        forall|i: int| 0 <= i < position - 1 ==> #[trigger] deleted(tasks, position)[i] == tasks[i],
        forall|i: int|
            position - 1 <= i < tasks.len() - 1 ==> #[trigger] deleted(tasks, position)[i]
                == tasks[i + 1],
{
}

/// Marking complete touches exactly the addressed position, and only its
/// completion flag.
pub proof fn lemma_mark_complete_affects_only_position(tasks: Seq<TaskView>, position: int)
    requires
        valid_position(tasks, position),
    ensures
        marked_complete(tasks, position).len() == tasks.len(),
        marked_complete(tasks, position)[position - 1].title == tasks[position - 1].title,
        marked_complete(tasks, position)[position - 1].description == tasks[position
            - 1].description,
        marked_complete(tasks, position)[position - 1].completed == true,
        forall|i: int|
            0 <= i < tasks.len() && i != position - 1 ==> #[trigger] marked_complete(
                tasks,
                position,
            )[i] == tasks[i],
{
}

/// Marking complete is idempotent: marking the same position twice leaves
/// the same list as marking it once.
pub proof fn lemma_mark_complete_idempotent(tasks: Seq<TaskView>, position: int)
    requires
        valid_position(tasks, position),
    ensures
        marked_complete(marked_complete(tasks, position), position) == marked_complete(
            tasks,
            position,
        ),
{
    assert(marked_complete(marked_complete(tasks, position), position) =~= marked_complete(
        tasks,
        position,
    ));
}

} // verus!
