//! Reaction handlers that changes can be dispatched to.

use vstd::prelude::*;

use crate::value::Value;

verus! {

/// Why a worker declined a change.
pub struct WorkerError {
    pub message: String,
}

/// A reaction handler.  The reconciler calls the method matching each
/// change's kind, handing over the values involved and the path; a failed
/// call only has the matching error hook invoked, which by default does
/// nothing.  The engine promises nothing about what implementations do.
pub trait Worker {
    /// Reacts to a value created at `path`.
    fn create(&self, new_data: &Value, path: &str) -> Result<Value, WorkerError>;

    /// Reacts to a value changed at `path`.
    fn update(&self, old_data: &Value, new_data: &Value, path: &str) -> Result<Value, WorkerError>;

    /// Reacts to a value removed at `path`.
    fn delete(&self, old_data: &Value, path: &str) -> Result<Value, WorkerError>;

    /// Observes a failed create; never used for recovery.
    fn error_create(&self) {
    }

    /// Observes a failed update; never used for recovery.
    fn error_update(&self) {
    }

    /// Observes a failed delete; never used for recovery.
    fn error_delete(&self) {
    }
}

impl Worker for Box<dyn Worker> {
    /// Forwards to the boxed worker.
    fn create(&self, new_data: &Value, path: &str) -> Result<Value, WorkerError> {
        (**self).create(new_data, path)
    }

    /// Forwards to the boxed worker.
    fn update(&self, old_data: &Value, new_data: &Value, path: &str) -> Result<
        Value,
        WorkerError,
    > {
        (**self).update(old_data, new_data, path)
    }

    /// Forwards to the boxed worker.
    fn delete(&self, old_data: &Value, path: &str) -> Result<Value, WorkerError> {
        (**self).delete(old_data, path)
    }

    /// Forwards to the boxed worker.
    fn error_create(&self) {
        (**self).error_create()
    }

    /// Forwards to the boxed worker.
    fn error_update(&self) {
        (**self).error_update()
    }

    /// Forwards to the boxed worker.
    fn error_delete(&self) {
        (**self).error_delete()
    }
}

} // verus!
