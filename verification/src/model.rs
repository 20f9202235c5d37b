//! The tree as a mathematical value, and what it means for it to be well
//! formed.

use crate::error::ToruError;
use crate::task::{Status, TaskView};
use vstd::prelude::*;

verus! {

/// What a tree is, as a mathematical value: the nodes by index, and the index
/// of the current node.
pub ghost struct TreeView {
    pub cursor: usize,
    pub nodes: Seq<TaskView>,
}

/// Node `i` names a parent, and that parent lists `i` among its children.
pub open spec fn has_valid_parent(nodes: Seq<TaskView>, i: int) -> bool {
    &&& nodes[i].parent is Some
    &&& (nodes[i].parent.unwrap() as int) < nodes.len()
    &&& nodes[nodes[i].parent.unwrap() as int].children.contains(i as usize)
}

/// No child of node `p` is listed twice, and each of them is a node that
/// names `p` as its parent.
pub open spec fn has_valid_children(nodes: Seq<TaskView>, p: int) -> bool {
    &&& nodes[p].children.no_duplicates()
    &&& forall|k: int|
        0 <= k < nodes[p].children.len() ==> {
            &&& (#[trigger] nodes[p].children[k]) < nodes.len()
            &&& nodes[nodes[p].children[k] as int].parent == Some(p as usize)
        }
}

/// The links between the nodes agree: node 0 is the root and has no parent,
/// every other node has one, and "parent of" and "child of" say the same.
/// There are no more nodes than an index can count.
pub open spec fn linked(nodes: Seq<TaskView>) -> bool {
    &&& 0 < nodes.len() <= usize::MAX
    &&& nodes[0].parent is None
    &&& forall|i: int| 0 < i < nodes.len() ==> #[trigger] has_valid_parent(nodes, i)
    &&& forall|p: int| 0 <= p < nodes.len() ==> #[trigger] has_valid_children(nodes, p)
}

/// Node `i` ranks strictly below its parent.
pub open spec fn ranks_below_parent(nodes: Seq<TaskView>, rank: Seq<nat>, i: int) -> bool {
    nodes[i].parent matches Some(p) ==> (p as int) < nodes.len() ==> rank[i] < rank[p as int]
}

/// `rank` gives every node a number that is smaller than its parent's. Where
/// such numbers exist, no node is its own ancestor.
pub open spec fn ranked(nodes: Seq<TaskView>, rank: Seq<nat>) -> bool {
    &&& rank.len() == nodes.len()
    &&& forall|i: int| 0 <= i < nodes.len() ==> #[trigger] ranks_below_parent(nodes, rank, i)
}

/// The node reached from `i` by following `steps` parent links, or -1 where
/// the links end before that.
pub open spec fn ancestor(nodes: Seq<TaskView>, i: int, steps: nat) -> int
    decreases steps,
{
    if steps == 0 {
        i
    } else if 0 <= i < nodes.len() && nodes[i].parent is Some {
        ancestor(nodes, nodes[i].parent.unwrap() as int, (steps - 1) as nat)
    } else {
        -1
    }
}

/// Node `i` is `top` itself or one of its descendants.
pub open spec fn under(nodes: Seq<TaskView>, top: int, i: int) -> bool {
    exists|steps: nat| ancestor(nodes, i, steps) == top
}

/// The nodes of the subtree whose root is `top`: `top` and all its
/// descendants.
pub open spec fn subtree(nodes: Seq<TaskView>, top: int) -> Set<int> {
    Set::new(|i: int| 0 <= i < nodes.len() && under(nodes, top, i))
}

/// Those of `children` that are not complete, in the same order.
pub open spec fn pending(nodes: Seq<TaskView>, children: Seq<usize>) -> Seq<usize> {
    children.filter(|c: usize| !nodes[c as int].is_complete())
}

impl TreeView {
    /// The invariant of the tree: the links agree, no node is its own
    /// ancestor, and the cursor is on a node.
    pub open spec fn well_formed(self) -> bool {
        &&& linked(self.nodes)
        &&& (self.cursor as int) < self.nodes.len()
        &&& exists|rank: Seq<nat>| ranked(self.nodes, rank)
    }

    /// The node under the cursor.
    pub open spec fn current(self) -> TaskView {
        self.nodes[self.cursor as int]
    }

    /// The pending children of the node under the cursor, by index.
    pub open spec fn pending_children(self) -> Seq<usize> {
        pending(self.nodes, self.current().children)
    }

    /// The tree after `task` has been added under the current node: it
    /// stands at the end of the arena, with the current node as its parent
    /// and as the last of the current node's children.
    pub open spec fn added(self, task: TaskView) -> TreeView {
        let at = self.cursor as int;
        let parent = TaskView {
            children: self.nodes[at].children.push(self.nodes.len() as usize),
            ..self.nodes[at]
        };
        TreeView {
            cursor: self.cursor,
            nodes: self.nodes.update(at, parent).push(
                TaskView { parent: Some(self.cursor), ..task },
            ),
        }
    }

    /// The tree with the cursor on the parent of the current node; the
    /// cursor stays where it is when it is on the root.
    pub open spec fn ascended(self) -> TreeView {
        if self.cursor == 0 {
            self
        } else {
            TreeView { cursor: self.current().parent.unwrap(), ..self }
        }
    }

    /// The tree with the cursor on node `idx`, where `idx` is a child of the
    /// current node; the cursor stays where it is otherwise.
    pub open spec fn descended(self, idx: usize) -> TreeView {
        if self.current().children.contains(idx) {
            TreeView { cursor: idx, ..self }
        } else {
            self
        }
    }

    /// The tree after node `idx` and every node under it has been marked as
    /// complete. The root is never marked.
    pub open spec fn completed(self, idx: usize) -> TreeView {
        if idx == 0 {
            self
        } else {
            TreeView {
                cursor: self.cursor,
                nodes: Seq::new(
                    self.nodes.len(),
                    |j: int|
                        if under(self.nodes, idx as int, j) {
                            TaskView { status: Status::Complete, ..self.nodes[j] }
                        } else {
                            self.nodes[j]
                        },
                ),
            }
        }
    }

    /// The pending child of the current node at position `idx`, or the error
    /// that says that there is none.
    pub open spec fn nth_child(self, idx: usize) -> Result<usize, ToruError> {
        if (idx as int) < self.pending_children().len() {
            Ok(self.pending_children()[idx as int])
        } else {
            Err(ToruError::InvalidIndex(idx))
        }
    }
}

} // verus!
