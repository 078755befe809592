use vstd::prelude::*;

pub mod deps;
pub mod graph;
pub mod laws;
pub mod project;
pub mod task;

pub use graph::{TaskGraph, TaskGraphBuilder};
pub use project::{Project, Target, ValidateProjectsError, Workspace};
pub use task::{Action, Task, TaskID};

verus! {

} // verus!
