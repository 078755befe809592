use vstd::prelude::*;

use crate::deps::clone_strings;

verus! {

/// The identifier of a task within a graph.
pub type TaskID = String;

pub enum ActionView {
    Shell(Seq<Seq<char>>),
}

pub struct TaskView {
    pub id: Seq<char>,
    pub name: Seq<char>,
    pub action: ActionView,
}

/// What a task does when it is executed.
#[derive(Debug, Clone, PartialEq)]
pub enum Action {
    /// Run an external command: element 0 is the executable, the rest its arguments.
    Shell(Vec<String>),
}

impl View for Action {
    type V = ActionView;

    open spec fn view(&self) -> ActionView {
        match self {
            Action::Shell(cmd) => ActionView::Shell(cmd.deep_view()),
        }
    }
}

impl Action {
    /// Duplicates this action.
    pub fn duplicate(&self) -> (r: Action)
        ensures
            r@ == self@,
    {
        match self {
            Action::Shell(cmd) => Action::Shell(clone_strings(cmd)),
        }
    }
}

/// A unit of work: an identifier, a display name and an action.
#[derive(Debug, Clone, PartialEq)]
pub struct Task {
    id: TaskID,
    name: String,
    action: Action,
}

impl View for Task {
    type V = TaskView;

    closed spec fn view(&self) -> TaskView {
        TaskView { id: self.id@, name: self.name@, action: self.action@ }
    }
}

impl Task {
    pub fn new(id: TaskID, name: String, action: Action) -> (r: Task)
        ensures
            r@ == (TaskView { id: id@, name: name@, action: action@ }),
    {
        Task { id, name, action }
    }

    pub fn id(&self) -> (r: &TaskID)
        ensures
            r@ == self@.id,
    {
        &self.id
    }

    pub fn name(&self) -> (r: &String)
        ensures
            r@ == self@.name,
    {
        &self.name
    }

    pub fn action(&self) -> (r: &Action)
        ensures
            r@ == self@.action,
    {
        &self.action
    }

    /// Duplicates the task, field by field.
    pub fn duplicate(&self) -> (r: Task)
        ensures
            r@ == self@,
    {
        Task { id: self.id.clone(), name: self.name.clone(), action: self.action.duplicate() }
    }
}

} // verus!
