//! Record types shared by the ordering engine and the store.

use vstd::prelude::*;

verus! {

/// Lifecycle state of a checklist item.
#[derive(Debug, Clone, Copy, PartialEq, Eq, Structural)]
pub enum TaskItemStatus {
    Pending,
    Completed,
    Canceled,
}

/// Failures of the store and of the ordering engine.
#[derive(Debug, Clone, Copy, PartialEq, Eq, Structural)]
pub enum StoreError {
    /// A referenced id does not exist.
    NotFound,
    /// A target position lies outside `1..=N`.
    InvalidPosition,
    /// A uniqueness or reference rule of the store would be broken.
    ConstraintViolation,
    /// The backing storage could not be reached or ran out of ids.
    StorageUnavailable,
    /// A stored status code outside the known set.
    UnknownStatus(i64),
}

/// The integer code under which a status is stored.
pub open spec fn status_code(s: TaskItemStatus) -> i64 {
    match s {
        TaskItemStatus::Pending => 0,
        TaskItemStatus::Completed => 1,
        TaskItemStatus::Canceled => 2,
    }
}

impl TaskItemStatus {
    /// Decodes a stored status code; codes outside `0..=2` are an error,
    /// never a default.
    pub fn from_code(value: i64) -> (r: Result<TaskItemStatus, StoreError>)
        ensures
            (0 <= value <= 2) <==> r is Ok,
            r is Ok ==> status_code(r->Ok_0) == value,
            r is Err ==> r->Err_0 == StoreError::UnknownStatus(value),
    {
        if value == 0 {
            Ok(TaskItemStatus::Pending)
        } else if value == 1 {
            Ok(TaskItemStatus::Completed)
        } else if value == 2 {
            Ok(TaskItemStatus::Canceled)
        } else {
            Err(StoreError::UnknownStatus(value))
        }
    }

    /// The code under which this status is stored.
    pub fn code(&self) -> (r: i64)
        ensures
            r == status_code(*self),
    {
        match self {
            TaskItemStatus::Pending => 0,
            TaskItemStatus::Completed => 1,
            TaskItemStatus::Canceled => 2,
        }
    }

    pub fn is_pending(&self) -> (r: bool)
        ensures
            r == (*self == TaskItemStatus::Pending),
    {
        match self {
            TaskItemStatus::Pending => true,
            _ => false,
        }
    }
}

impl From<TaskItemStatus> for i64 {
    fn from(status: TaskItemStatus) -> (r: i64) {
        status.code()
    }
}

impl vstd::std_specs::convert::FromSpecImpl<TaskItemStatus> for i64 {
    open spec fn obeys_from_spec() -> bool {
        true
    }

    open spec fn from_spec(v: TaskItemStatus) -> i64 {
        status_code(v)
    }
}

/// A project as listed: `sequence` is its 1-based rank among all projects.
#[derive(Debug)]
pub struct Project {
    pub id: i64,
    pub title: String,
    pub description: Option<String>,
    pub sequence: i64,
}

/// A task as listed: `sequence` is its 1-based rank within its project.
#[derive(Debug)]
pub struct Task {
    pub id: i64,
    pub project_id: i64,
    pub title: String,
    pub description: Option<String>,
    pub sequence: i64,
}

/// A checklist line, independent of any task.
#[derive(Debug)]
pub struct TaskItem {
    pub id: i64,
    pub content: String,
    pub status: TaskItemStatus,
}

impl TaskItem {
    /// Builds an item from its stored columns, decoding the status code.
    pub fn from_parts(id: i64, content: String, status_code_value: i64) -> (r: Result<
        TaskItem,
        StoreError,
    >)
        ensures
            (0 <= status_code_value <= 2) <==> r is Ok,
            r is Ok ==> r->Ok_0.id == id && r->Ok_0.content == content && status_code(
                r->Ok_0.status,
            ) == status_code_value,
            r is Err ==> r->Err_0 == StoreError::UnknownStatus(status_code_value),
    {
        match TaskItemStatus::from_code(status_code_value) {
            Ok(status) => Ok(TaskItem { id, content, status }),
            Err(e) => Err(e),
        }
    }
}

/// The association of an item with a task; `sequence` is `None` while the
/// item is detached from the task's active ordering.
#[derive(Debug, Clone, Copy, PartialEq, Eq, Structural)]
pub struct TaskItemLink {
    pub task_id: i64,
    pub item_id: i64,
    pub sequence: Option<i64>,
}

/// An item as listed inside one task, with its position there.
#[derive(Debug)]
pub struct TaskItemWithSequence {
    pub id: i64,
    pub content: String,
    pub status: TaskItemStatus,
    pub sequence: Option<i64>,
}

} // verus!
