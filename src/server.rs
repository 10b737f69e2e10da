//! The request and response bodies of the task endpoints.

use vstd::prelude::*;
use vstd::string::*;

verus! {

/// A request to create a task.
#[derive(Clone, Debug)]
pub struct TaskRequest {
    pub id: String,
    pub description: String,
    pub priority: u32,
}

/// What the task endpoints answer.
#[derive(Clone, Debug)]
pub struct TaskResponse {
    pub id: String,
    pub status: String,
    pub result: Option<String>,
}

impl TaskResponse {
    /// The answer to a creation request: the task is `created`, with no result yet.
    pub fn created(req: &TaskRequest) -> (r: TaskResponse)
        ensures
            r.id@ == req.id@,
            r.status@ == "created"@,
            r.result is None,
    {
        TaskResponse { id: req.id.clone(), status: String::from_str("created"), result: None }
    }

    /// The answer to a status query: the task is `pending`, with no result yet.
    pub fn pending(id: String) -> (r: TaskResponse)
        ensures
            r.id == id,
            r.status@ == "pending"@,
            r.result is None,
    {
        TaskResponse { id, status: String::from_str("pending"), result: None }
    }
}

} // verus!
