//! A task record: free-text description, status, and the two timestamps.

use vstd::prelude::*;

use crate::status::StatusView;
use crate::status::TaskStatus;
use crate::timestamp::Timestamp;

verus! {

/// One trackable unit of work.
#[derive(Debug)]
pub struct Task {
    pub description: String,
    pub status: TaskStatus,
    /// Set once when the task is created, immutable thereafter.
    pub created: Timestamp,
    /// Set on every mutation of the task.
    pub updated: Timestamp,
}

/// The mathematical value of a [`Task`].
pub struct TaskView {
    pub description: Seq<char>,
    pub status: StatusView,
    pub created: Timestamp,
    pub updated: Timestamp,
}

impl View for Task {
    type V = TaskView;

    open spec fn view(&self) -> TaskView {
        TaskView {
            description: self.description@,
            status: self.status@,
            created: self.created,
            updated: self.updated,
        }
    }
}

impl TaskView {
    /// Both timestamps lie in their calendar ranges.
    pub open spec fn wf(self) -> bool {
        &&& self.created.wf()
        &&& self.updated.wf()
    }

    /// The data-model invariant on the two timestamps: a task is never
    /// updated before it was created. Creation establishes it, and each
    /// mutation keeps it whenever the clock has not gone back before the
    /// task's creation.
    pub open spec fn time_ordered(self) -> bool {
        self.created.le(self.updated)
    }

    /// The same record reclassified: status `st`, update time `now`, the
    /// description and the creation time kept.
    pub open spec fn with_status(self, st: StatusView, now: Timestamp) -> TaskView {
        TaskView { description: self.description, status: st, created: self.created, updated: now }
    }
}

impl Clone for Task {
    /// Cloning keeps the task value.
    fn clone(&self) -> (r: Self)
        ensures
            r@ == self@,
    {
        Task {
            description: self.description.clone(),
            status: self.status.clone(),
            created: self.created,
            updated: self.updated,
        }
    }
}

} // verus!
