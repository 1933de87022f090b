//! Data the terminal front end displays for each task. The drawing itself,
//! the raw-mode terminal and the key handling live with the embedding
//! program; the task records it renders are plain values defined here.

use vstd::prelude::*;

verus! {

/// Display status of one task.
#[derive(Clone, Debug, PartialEq)]
pub enum TaskStatus {
    Pending,
    Running,
    /// Finished, with its duration in milliseconds.
    Completed(u64),
    /// Failed, with the error message.
    Failed(String),
    /// Served from cache, with the lookup duration in milliseconds.
    Cached(u64),
}

/// One task as the terminal front end shows it.
#[derive(Debug)]
pub struct TuiTask {
    pub name: String,
    pub status: TaskStatus,
    pub logs: Vec<String>,
}

impl TuiTask {
    /// A fresh pending task with no logs.
    pub fn new(name: &String) -> (r: TuiTask)
        ensures
            r.name@ == name@,
            r.status is Pending,
            r.logs@.len() == 0,
    {
        TuiTask { name: name.clone(), status: TaskStatus::Pending, logs: Vec::new() }
    }
}

} // verus!
