//! The library's error type and the HTTP mapping the submission surface uses.

use vstd::prelude::*;

use crate::task::TaskStatus;

verus! {

/// Everything a caller of the store or of a task body can be told went wrong.
#[derive(Clone, Copy, PartialEq, Eq, Structural, Debug)]
pub enum Error {
    /// The task has left `Submitted`, so deletion is no longer permitted.
    UnableToDeleteTask(u128, TaskStatus),
    /// No live task with this id exists in the store.
    TaskNotFound(u128),
    /// A task with this id is already persisted.
    TaskAlreadyExists(u128),
    /// A storage operation failed; the adapter reports it as recoverable.
    Storage,
    /// An outbound HTTP call inside a task body failed.
    Http,
    /// A payload could not be serialized or deserialized.
    Codec,
}

impl Error {
    /// The HTTP status code the submission surface answers with.
    pub fn http_status(&self) -> (r: u16)
        ensures
            r == match *self {
                Error::UnableToDeleteTask(_, _) => 400u16,
                Error::TaskNotFound(_) => 404u16,
                _ => 500u16,
            },
    {
        match *self {
            Error::UnableToDeleteTask(_, _) => 400,
            Error::TaskNotFound(_) => 404,
            Error::TaskAlreadyExists(_) => 500,
            Error::Storage => 500,
            Error::Http => 500,
            Error::Codec => 500,
        }
    }

    /// The message shown to a client; deliberately free of internal detail.
    pub fn public_message(&self) -> (r: String)
        ensures
            r@ == match *self {
                Error::UnableToDeleteTask(_, TaskStatus::StartedExecuting) => "Unable to delete the task, since it already started executing"@,
                Error::UnableToDeleteTask(_, TaskStatus::Done) => "Unable to delete the task, since it is already complete"@,
                Error::UnableToDeleteTask(_, TaskStatus::Failed) => "Unable to delete the task, since it failed"@,
                Error::UnableToDeleteTask(_, _) => "Unable to delete the task"@,
                Error::TaskNotFound(_) => "task not found"@,
                Error::Codec => "server error"@,
                Error::Http => "http error"@,
                _ => "database error"@,
            },
    {
        match *self {
            Error::UnableToDeleteTask(_, status) => match status {
                TaskStatus::StartedExecuting => "Unable to delete the task, since it already started executing".to_string(),
                TaskStatus::Done => "Unable to delete the task, since it is already complete".to_string(),
                TaskStatus::Failed => "Unable to delete the task, since it failed".to_string(),
                _ => "Unable to delete the task".to_string(),
            },
            Error::TaskNotFound(_) => "task not found".to_string(),
            Error::Codec => "server error".to_string(),
            Error::Http => "http error".to_string(),
            Error::TaskAlreadyExists(_) => "database error".to_string(),
            Error::Storage => "database error".to_string(),
        }
    }
}

} // verus!
