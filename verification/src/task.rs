//! A single task: its place in the hierarchy, its name, its due date and
//! whether it is done.

use crate::date::{format_date, formatted, shown_format};
use time::PrimitiveDateTime;
use vstd::prelude::*;

verus! {

/// Whether a task is still open.
#[derive(Clone, Copy, Debug, PartialEq, Eq, Structural)]
pub enum Status {
    Pending,
    Complete,
}

/// What a task is, as a mathematical value.
pub ghost struct TaskView {
    /// The index of the parent; only the root has none.
    pub parent: Option<usize>,
    pub name: Seq<char>,
    pub due: Option<PrimitiveDateTime>,
    pub status: Status,
    /// The indices of the children, in the order in which they were added.
    pub children: Seq<usize>,
}

impl TaskView {
    /// Whether the task is done.
    pub open spec fn is_complete(self) -> bool {
        self.status == Status::Complete
    }

    /// The task as a line of text: the name, and the due date after it where
    /// there is one.
    pub open spec fn text(self) -> Seq<char> {
        match self.due {
            Some(due) => self.name + " | "@ + formatted(due, shown_format()),
            None => self.name,
        }
    }
}

/// A task of the list. Other tasks are referred to by their index in the
/// tree that owns them.
#[derive(Debug)]
pub struct Task {
    parent: Option<usize>,
    name: String,
    due: Option<PrimitiveDateTime>,
    status: Status,
    children: Vec<usize>,
}

impl View for Task {
    type V = TaskView;

    closed spec fn view(&self) -> TaskView {
        TaskView {
            parent: self.parent,
            name: self.name@,
            due: self.due,
            status: self.status,
            children: self.children@,
        }
    }
}

/// `children` with every occurrence of `child` left out.
pub open spec fn without(children: Seq<usize>, child: usize) -> Seq<usize> {
    children.filter(|c: usize| c != child)
}

/// `children` with every occurrence of `from` turned into `to`.
pub open spec fn renamed(children: Seq<usize>, from: usize, to: usize) -> Seq<usize> {
    children.map_values(|c: usize| if c == from { to } else { c })
}

/// Leaving `child` out of a sequence that ends in `c`.
pub proof fn lemma_without_push(children: Seq<usize>, c: usize, child: usize)
    ensures
        without(children.push(c), child) == if c != child {
            without(children, child).push(c)
        } else {
            without(children, child)
        },
{
    reveal(Seq::filter);
    assert(children.push(c).drop_last() =~= children);
}

impl Clone for Task {
    fn clone(&self) -> (r: Self)
        ensures
            r@ == self@,
    {
        Task {
            parent: self.parent,
            name: self.name.clone(),
            due: self.due,
            status: self.status,
            children: self.children.clone(),
        }
    }
}

impl Task {
    /// What a new task is: pending, named "Root", without parent, due date
    /// or children.
    pub open spec fn new_view() -> TaskView {
        TaskView {
            parent: None,
            name: "Root"@,
            due: None,
            status: Status::Pending,
            children: Seq::empty(),
        }
    }

    /// A new task.
    pub fn new() -> (r: Self)
        ensures
            r@ == Self::new_view(),
    {
        Task {
            parent: None,
            name: "Root".to_owned(),
            due: None,
            status: Status::Pending,
            children: Vec::new(),
        }
    }

    /// Assembles a task from its five parts.
    pub fn from_parts(
        parent: Option<usize>,
        name: String,
        due: Option<PrimitiveDateTime>,
        status: Status,
        children: Vec<usize>,
    ) -> (r: Self)
        ensures
            r@ == (TaskView { parent, name: name@, due, status, children: children@ }),
    {
        Task { parent, name, due, status, children }
    }

    /// The name of the task.
    pub fn name(&self) -> (r: &String)
        ensures
            r@ == self@.name,
    {
        &self.name
    }

    /// When the task is due, if a date is set.
    pub fn due(&self) -> (r: &Option<PrimitiveDateTime>)
        ensures
            *r == self@.due,
    {
        &self.due
    }

    /// The index of the parent; the root has none.
    pub fn parent(&self) -> (r: Option<usize>)
        ensures
            r == self@.parent,
    {
        self.parent
    }

    /// Whether the task is pending or complete.
    pub fn status(&self) -> (r: Status)
        ensures
            r == self@.status,
    {
        self.status
    }

    /// The indices of the children, in the order in which they were added.
    pub fn children(&self) -> (r: &Vec<usize>)
        ensures
            r@ == self@.children,
    {
        &self.children
    }

    /// The task with `parent_index` as its parent.
    pub fn set_parent(self, parent_index: usize) -> (r: Self)
        ensures
            r@ == (TaskView { parent: Some(parent_index), ..self@ }),
    {
        let mut task = self;
        task.parent = Some(parent_index);
        task
    }

    /// The task under the name `name`.
    pub fn set_name(self, name: String) -> (r: Self)
        ensures
            r@ == (TaskView { name: name@, ..self@ }),
    {
        let mut task = self;
        task.name = name;
        task
    }

    /// The task with `date` as its due date.
    pub fn set_due(self, date: PrimitiveDateTime) -> (r: Self)
        ensures
            r@ == (TaskView { due: Some(date), ..self@ }),
    {
        let mut task = self;
        task.due = Some(date);
        task
    }

    /// Marks the task as done. A task that is done stays done.
    pub fn complete(self) -> (r: Task)
        ensures
            r@ == (TaskView { status: Status::Complete, ..self@ }),
    {
        let mut task = self;
        task.status = Status::Complete;
        task
    }

    /// Whether the task is done.
    pub fn is_complete(&self) -> (r: bool)
        ensures
            r == self@.is_complete(),
    {
        match self.status {
            Status::Complete => true,
            Status::Pending => false,
        }
    }

    /// Appends `child_index` to the children.
    pub fn add_child(self, child_index: usize) -> (r: Self)
        ensures
            r@ == (TaskView { children: self@.children.push(child_index), ..self@ }),
    {
        let mut task = self;
        task.children.push(child_index);
        task
    }

    /// Takes every occurrence of `child_index` out of the children; the
    /// others keep their order.
    pub fn remove_child(self, child_index: usize) -> (r: Self)
        ensures
            r@ == (TaskView { children: without(self@.children, child_index), ..self@ }),
    {
        let mut kept: Vec<usize> = Vec::new();
        let mut i: usize = 0;
        proof {
            reveal(Seq::filter);
        }
        while i < self.children.len()
            invariant
                i <= self.children.len(),
                kept@ == without(self.children@.take(i as int), child_index),
            decreases self.children.len() - i,
        {
            let c: usize = self.children[i];
            proof {
                assert(self.children@.take(i as int + 1) =~= self.children@.take(i as int).push(c));
                lemma_without_push(self.children@.take(i as int), c, child_index);
            }
            if c != child_index {
                kept.push(c);
            }
            i += 1;
        }
        assert(self.children@.take(i as int) == self.children@);
        let mut task = self;
        task.children = kept;
        task
    }

    /// Writes `new_child` in the place of every occurrence of `old_child`.
    pub fn replace_child(self, old_child: usize, new_child: usize) -> (r: Self)
        ensures
            r@ == (TaskView {
                children: renamed(self@.children, old_child, new_child),
                ..self@
            }),
    {
        let mut new_children: Vec<usize> = Vec::new();
        let mut i: usize = 0;
        while i < self.children.len()
            invariant
                i <= self.children.len(),
                new_children@ == renamed(self.children@.take(i as int), old_child, new_child),
            decreases self.children.len() - i,
        {
            let c: usize = self.children[i];
            new_children.push(if c == old_child { new_child } else { c });
            assert(new_children@ =~= renamed(
                self.children@.take(i as int + 1),
                old_child,
                new_child,
            ));
            i += 1;
        }
        assert(self.children@.take(i as int) == self.children@);
        let mut task = self;
        task.children = new_children;
        task
    }

    /// The task as a line of text.
    pub fn to_string(&self) -> (r: String)
        ensures
            r@ == self@.text(),
    {
        let mut text = self.name.clone();
        match &self.due {
            Some(due) => {
                text.append(" | ");
                let when = format_date(due, "%I:%M %p %F");
                text.append(when.as_str());
            },
            None => {},
        }
        text
    }

    /// Whether the task has children.
    pub fn has_children(&self) -> (r: bool)
        ensures
            r == (self@.children.len() > 0),
    {
        self.children.len() > 0
    }

    /// Whether `id` is among the children.
    pub fn is_child(&self, id: usize) -> (r: bool)
        ensures
            r == self@.children.contains(id),
    {
        let mut i: usize = 0;
        while i < self.children.len()
            invariant
                i <= self.children.len(),
                forall|k: int| 0 <= k < i ==> self.children@[k] != id,
            decreases self.children.len() - i,
        {
            if self.children[i] == id {
                return true;
            }
            i += 1;
        }
        false
    }
}

} // verus!
