//! The task record: one to-do entry and its mathematical model.

use vstd::prelude::*;

verus! {

/// Mathematical model of one task: its text and its completion flag.
pub ghost struct TaskView {
    pub content: Seq<char>,
    pub finished: bool,
}

/// One to-do entry: free-form text plus a completed/incomplete flag.
pub struct TodoItem {
    pub content: String,
    pub finished: bool,
}

impl View for TodoItem {
    type V = TaskView;

    open spec fn view(&self) -> TaskView {
        TaskView { content: self.content@, finished: self.finished }
    }
}

impl TodoItem {
    /// Builds a task from its text and flag.
    pub fn new(content: String, finished: bool) -> (r: TodoItem)
        ensures
            r@ == (TaskView { content: content@, finished }),
    {
        TodoItem { content, finished }
    }
}

impl Clone for TodoItem {
    fn clone(&self) -> (r: Self)
        ensures
            r == *self,
    {
        TodoItem { content: self.content.clone(), finished: self.finished }
    }
}

} // verus!
