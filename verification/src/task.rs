//! The task data model: identity, kind, lifecycle status, and the legal
//! status transitions that every store operation must respect.

use vstd::prelude::*;

use crate::time::Timestamp;
use crate::time::valid_timestamp;

verus! {

/// Lifecycle of a persisted task. `Submitted` is the only initial status;
/// `Done`, `Failed` and `Deleted` are terminal.
#[derive(Clone, Copy, PartialEq, Eq, Structural, Debug)]
pub enum TaskStatus {
    /// The task is persisted and waiting to be claimed.
    Submitted,
    /// Exactly one worker has claimed the task and is running its body.
    StartedExecuting,
    /// The task body finished without error.
    Done,
    /// The task body returned an error; no retry follows.
    Failed,
    /// The task was removed before any worker claimed it.
    Deleted,
}

/// The closed set of task kinds the workers know how to run.
#[derive(Clone, Copy, PartialEq, Eq, Structural, Debug)]
pub enum TaskType {
    Foo,
    Bar,
    Baz,
}

/// The in-flight projection of a task, as sent between components. A task in
/// flight is by construction `Submitted`, so it carries no status.
#[derive(Clone, Copy, PartialEq, Eq, Structural, Debug)]
pub struct Task {
    /// 128-bit globally unique identifier.
    pub id: u128,
    pub task_type: TaskType,
    /// The instant the task becomes eligible to run.
    pub execution_time: Timestamp,
}

impl Task {
    pub open spec fn wf(&self) -> bool {
        valid_timestamp(self.execution_time)
    }
}

/// A task as the store reports it: the in-flight fields plus the lifecycle.
#[derive(Clone, Copy, PartialEq, Eq, Structural, Debug)]
pub struct TaskInDb {
    pub id: u128,
    pub created_at: Timestamp,
    pub status: TaskStatus,
    pub execution_time: Timestamp,
    pub task_type: TaskType,
    pub started_executing_at: Option<Timestamp>,
    pub completed_at: Option<Timestamp>,
    pub failed_at: Option<Timestamp>,
}

/// The edges of the lifecycle state machine: a task may only move
/// `Submitted -> StartedExecuting -> Done | Failed`, or `Submitted -> Deleted`.
pub open spec fn legal_transition(from: TaskStatus, to: TaskStatus) -> bool {
    match (from, to) {
        (TaskStatus::Submitted, TaskStatus::StartedExecuting) => true,
        (TaskStatus::Submitted, TaskStatus::Deleted) => true,
        (TaskStatus::StartedExecuting, TaskStatus::Done) => true,
        (TaskStatus::StartedExecuting, TaskStatus::Failed) => true,
        _ => false,
    }
}

/// `to` lies on some legal path out of `from` (including staying put).
pub open spec fn reachable_status(from: TaskStatus, to: TaskStatus) -> bool {
    from == to || legal_transition(from, to) || (from == TaskStatus::Submitted
        && legal_transition(TaskStatus::StartedExecuting, to))
}

/// A status with no legal outgoing edge.
pub open spec fn terminal_status(s: TaskStatus) -> bool {
    s == TaskStatus::Done || s == TaskStatus::Failed || s == TaskStatus::Deleted
}

/// Reachability follows the edges: each legal step preserves what remains
/// reachable, and terminal statuses reach only themselves.
pub proof fn lemma_reachable_is_transitive(a: TaskStatus, b: TaskStatus, c: TaskStatus)
    requires
        reachable_status(a, b),
        reachable_status(b, c),
    ensures
        reachable_status(a, c),
{
}

pub proof fn lemma_terminal_is_final(a: TaskStatus, b: TaskStatus)
    requires
        terminal_status(a),
        reachable_status(a, b),
    ensures
        a == b,
{
}

/// Relies on `uuid::Uuid::new_v4` and `uuid::Uuid::as_u128`: draws a fresh
/// random version-4 identifier and returns its 128-bit value. The result is
/// random, so nothing is promised of it.
#[verifier::external_body]
pub fn fresh_task_id() -> u128 {
    uuid::Uuid::new_v4().as_u128()
}

/// Build the in-flight record for a newly submitted task, drawing a fresh id.
pub fn new_task(task_type: TaskType, execution_time: Timestamp) -> (r: Task)
    requires
        valid_timestamp(execution_time),
    ensures
        r.task_type == task_type,
        r.execution_time == execution_time,
        r.wf(),
{
    Task { id: fresh_task_id(), task_type, execution_time }
}

} // verus!
