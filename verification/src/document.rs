//! The persisted form of a tree: a document with a cursor and a list of
//! task records.

use crate::model::TreeView;
use crate::task::{Status, Task, TaskView};
use crate::tree::{views, Tree};
use time::PrimitiveDateTime;
use vstd::prelude::*;

verus! {

/// One entry of the persisted list: a task with all its fields open.
#[derive(Debug)]
pub struct Record {
    pub parent: Option<usize>,
    pub name: String,
    pub due: Option<PrimitiveDateTime>,
    pub status: Status,
    pub children: Vec<usize>,
}

impl View for Record {
    type V = TaskView;

    open spec fn view(&self) -> TaskView {
        TaskView {
            parent: self.parent,
            name: self.name@,
            due: self.due,
            status: self.status,
            children: self.children@,
        }
    }
}

/// The persisted form of a tree.
#[derive(Debug)]
pub struct Document {
    pub cursor: usize,
    pub tasks: Vec<Record>,
}

impl View for Document {
    type V = TreeView;

    open spec fn view(&self) -> TreeView {
        TreeView { cursor: self.cursor, nodes: Seq::new(self.tasks@.len(), |i: int| self.tasks@[i]@) }
    }
}

/// The document that encoding makes of a tree: the same cursor, and for
/// each node a record with the same parent, name, due date, status and
/// children.
pub open spec fn encoded(tree: TreeView) -> TreeView {
    tree
}

/// What decoding makes of a document: the tree that it describes, where it
/// describes a well-formed one.
pub open spec fn decoded(doc: TreeView) -> Option<TreeView> {
    if doc.well_formed() {
        Some(doc)
    } else {
        None
    }
}

/// The document that describes `tree`.
pub fn encode(tree: &Tree) -> (doc: Document)
    ensures
        doc@ == encoded(tree@),
{
    let tasks = tree.tasks();
    let mut records: Vec<Record> = Vec::new();
    let mut i: usize = 0;
    while i < tasks.len()
        invariant
            i <= tasks.len(),
            records@.len() == i,
            forall|k: int| 0 <= k < i ==> (#[trigger] records@[k])@ == tasks@[k]@,
        decreases tasks.len() - i,
    {
        let task = &tasks[i];
        let record = Record {
            parent: task.parent(),
            name: task.name().clone(),
            due: *task.due(),
            status: task.status(),
            children: task.children().clone(),
        };
        records.push(record);
        i += 1;
    }
    let doc = Document { cursor: tree.ptr(), tasks: records };
    assert(doc@.nodes =~= views(tasks@));
    doc
}

/// The tree that `doc` describes. A document that does not describe a
/// well-formed tree is refused.
pub fn decode(doc: &Document) -> (r: Option<Tree>)
    ensures
        match r {
            Some(tree) => decoded(doc@) == Some(tree@),
            None => decoded(doc@) is None,
        },
{
    let mut tasks: Vec<Task> = Vec::new();
    let mut i: usize = 0;
    while i < doc.tasks.len()
        invariant
            i <= doc.tasks.len(),
            tasks@.len() == i,
            forall|k: int| 0 <= k < i ==> (#[trigger] tasks@[k])@ == doc.tasks@[k]@,
        decreases doc.tasks.len() - i,
    {
        let record = &doc.tasks[i];
        let task = Task::from_parts(
            record.parent,
            record.name.clone(),
            record.due,
            record.status,
            record.children.clone(),
        );
        tasks.push(task);
        i += 1;
    }
    let tree = Tree::from_parts(doc.cursor, tasks);
    assert(tree@.nodes =~= doc@.nodes);
    if tree.is_well_formed() {
        Some(tree)
    } else {
        None
    }
}

/// Encoding a well-formed tree and decoding the document gives the tree
/// back: the same cursor, the same number of nodes, and for each node the
/// same parent, name, due date, status and children.
pub proof fn law_round_trip(tree: TreeView)
    requires
        tree.well_formed(),
    ensures
        decoded(encoded(tree)) == Some(tree),
{
}

} // verus!
