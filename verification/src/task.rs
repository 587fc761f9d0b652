//! The task record and its mathematical model.

use vstd::prelude::*;

use vstd::string::StringExecFns;

verus! {

/// One to-do item: a unique numeric id, a free-text description, and a
/// completion flag.
#[derive(Debug)]
pub struct Task {
    pub id: u64,
    pub description: String,
    pub completed: bool,
}

/// The mathematical content of a [`Task`]: the same three fields with the
/// description as a sequence of characters.
pub ghost struct TaskView {
    pub id: u64,
    pub description: Seq<char>,
    pub completed: bool,
}

impl View for Task {
    type V = TaskView;

    open spec fn view(&self) -> TaskView {
        TaskView { id: self.id, description: self.description@, completed: self.completed }
    }
}

impl DeepView for Task {
    type V = TaskView;

    open spec fn deep_view(&self) -> TaskView {
        self.view()
    }
}

impl Task {
    /// Builds a fresh, not yet completed task.
    pub fn new(id: u64, description: String) -> (t: Task)
        ensures
            t@ == (TaskView { id, description: description@, completed: false }),
    {
        Task { id, description, completed: false }
    }

    /// An independent copy of the task.
    pub fn duplicate(&self) -> (t: Task)
        ensures
            t@ == self@,
    {
        Task { id: self.id, description: self.description.clone(), completed: self.completed }
    }

    /// The one-line rendering of the task for the terminal.
    pub fn display_line(&self) -> (r: String)
        ensures
            r@ == display_chars(self@),
    {
        let mut out = String::from_str("Task ");
        proof {
            reveal_strlit("Task ");
            assert("Task "@ =~= seq!['T', 'a', 's', 'k', ' ']);
        }
        crate::codec::push_digits(&mut out, self.id);
        out.append(": ");
        proof {
            reveal_strlit(": ");
            assert(": "@ =~= seq![':', ' ']);
        }
        out.append(self.description.as_str());
        proof {
            assert(out@ =~= display_chars(self@));
        }
        out
    }
}

/// How a task reads on the terminal: the word `Task`, its id, a colon, and
/// its description.
pub open spec fn display_chars(t: TaskView) -> Seq<char> {
    seq!['T', 'a', 's', 'k', ' '] + crate::codec::spec_digits(t.id as nat) + seq![':', ' ']
        + t.description
}

/// A description fits the line-oriented store format exactly when it spans a
/// single line. Every other character, the field delimiter included, is
/// handled by quoting.
pub open spec fn wf_description(d: Seq<char>) -> bool {
    forall|i: int| 0 <= i < d.len() ==> d[i] != '\n'
}

/// A task the store can persist.
pub open spec fn wf_task(t: TaskView) -> bool {
    wf_description(t.description)
}

/// A collection of tasks the store can persist.
pub open spec fn wf_tasks(ts: Seq<TaskView>) -> bool {
    forall|i: int| 0 <= i < ts.len() ==> wf_task(ts[i])
}

/// No two tasks share an id.
pub open spec fn unique_ids(ts: Seq<TaskView>) -> bool {
    forall|i: int, j: int| 0 <= i < j < ts.len() ==> ts[i].id != ts[j].id
}

} // verus!
