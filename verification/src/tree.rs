//! The tree of tasks: an arena of nodes addressed by index, with a cursor on
//! the current node.

use crate::error::ToruError;
use crate::lemmas::{
    lemma_added_well_formed, lemma_closed_under_children, lemma_distinct_bounded,
    lemma_pending_first, lemma_pending_prefix, lemma_pending_push, lemma_same_links,
    lemma_under_child, lemma_under_parent,
};
use crate::deletion::{
    deletion, lemma_cleared, lemma_pruned_remainder, lemma_remainder_start, place_after,
    remainder, slot_after, survives_as,
};
use crate::prune::{
    lemma_prune_facts, lemma_prune_steps, lemma_pruned_well_formed, reparented, PruneSteps,
};
use crate::model::{
    ancestor, has_valid_children, has_valid_parent, linked, pending, ranked, ranks_below_parent,
    subtree, under, TreeView,
};
use crate::task::{Status, Task, TaskView};
use vstd::prelude::*;

verus! {

/// The views of the tasks of an arena, index by index.
pub open spec fn views(tasks: Seq<Task>) -> Seq<TaskView> {
    Seq::new(tasks.len(), |i: int| tasks[i]@)
}

/// The tree of tasks. Node 0 is the root.
#[derive(Debug)]
pub struct Tree {
    ptr: usize,
    tasks: Vec<Task>,
}

impl View for Tree {
    type V = TreeView;

    closed spec fn view(&self) -> TreeView {
        TreeView { cursor: self.ptr, nodes: views(self.tasks@) }
    }
}

impl Tree {
    /// A tree that holds the root and nothing else, with the cursor on it.
    pub fn new() -> (r: Self)
        ensures
            r@.cursor == 0,
            r@.nodes == seq![Task::new_view()],
            r@.well_formed(),
    {
        let mut tasks: Vec<Task> = Vec::new();
        tasks.push(Task::new());
        let tree = Tree { ptr: 0, tasks };
        proof {
            assert(tree@.nodes =~= seq![Task::new_view()]);
            let rank: Seq<nat> = seq![0nat];
            assert(ranked(tree@.nodes, rank));
        }
        tree
    }

    /// A tree made of a cursor and an arena as they are. Nothing is checked:
    /// `is_well_formed` tells whether the result is a tree to work with.
    pub fn from_parts(cursor: usize, tasks: Vec<Task>) -> (r: Self)
        ensures
            r@ == (TreeView { cursor, nodes: views(tasks@) }),
    {
        Tree { ptr: cursor, tasks }
    }

    /// The index of the current node.
    pub fn ptr(&self) -> (r: usize)
        ensures
            r == self@.cursor,
    {
        self.ptr
    }

    /// Puts the cursor on node `idx`. The tree stays well formed where `idx`
    /// is one of its nodes.
    pub fn set_ptr(&mut self, idx: usize)
        ensures
            final(self)@ == (TreeView { cursor: idx, ..old(self)@ }),
    {
        self.ptr = idx
    }

    /// The nodes, by index.
    pub fn tasks(&self) -> (r: &Vec<Task>)
        ensures
            views(r@) == self@.nodes,
    {
        &self.tasks
    }

    /// The nodes, to be changed in place. What is written through the result
    /// is what the tree holds afterwards; whether it is well formed then is
    /// for the caller to see to.
    pub fn tasks_mut(&mut self) -> (r: &mut Vec<Task>)
        ensures
            views(r@) == old(self)@.nodes,
            final(self)@ == (TreeView { cursor: old(self)@.cursor, nodes: views(final(r)@) }),
    {
        &mut self.tasks
    }

    /// Whether the cursor is on the root.
    pub fn at_root(&self) -> (r: bool)
        ensures
            r == (self@.cursor == 0),
    {
        self.ptr == 0
    }

    /// The node under the cursor.
    pub fn current(&self) -> (r: &Task)
        requires
            (self@.cursor as int) < self@.nodes.len(),
        ensures
            r@ == self@.current(),
    {
        &self.tasks[self.ptr]
    }

    /// A copy of the node under the cursor.
    pub fn current_owned(&self) -> (r: Task)
        requires
            (self@.cursor as int) < self@.nodes.len(),
        ensures
            r@ == self@.current(),
    {
        self.tasks[self.ptr].clone()
    }

    /// Node `id`, if there is one.
    pub fn task(&self, id: usize) -> (r: Option<&Task>)
        ensures
            match r {
                Some(task) => (id as int) < self@.nodes.len() && task@ == self@.nodes[id as int],
                None => id >= self@.nodes.len(),
            },
    {
        if id < self.tasks.len() {
            Some(&self.tasks[id])
        } else {
            None
        }
    }

    /// A copy of node `id`, if there is one.
    pub fn task_owned(&self, id: usize) -> (r: Option<Task>)
        ensures
            match r {
                Some(task) => (id as int) < self@.nodes.len() && task@ == self@.nodes[id as int],
                None => id >= self@.nodes.len(),
            },
    {
        if id < self.tasks.len() {
            Some(self.tasks[id].clone())
        } else {
            None
        }
    }

    /// Whether `task` has a child that is not complete.
    pub fn has_pending(&self, task: &Task) -> (r: bool)
        requires
            forall|k: int|
                0 <= k < task@.children.len() ==> (#[trigger] task@.children[k])
                    < self@.nodes.len(),
        ensures
            r == (pending(self@.nodes, task@.children).len() > 0),
    {
        let mut walk = self.children_of(task);
        loop
            invariant
                walk.well_formed(),
                walk.nodes() == self@.nodes,
                (pending(self@.nodes, task@.children).len() > 0) == (pending(
                    self@.nodes,
                    walk.upcoming(),
                ).len() > 0),
            decreases walk.upcoming().len(),
        {
            let ghost before = walk.upcoming();
            match walk.next() {
                Some(child) => {
                    proof {
                        lemma_pending_first(self@.nodes, before);
                    }
                    if !child.is_complete() {
                        return true;
                    }
                },
                None => {
                    proof {
                        reveal(Seq::filter);
                    }
                    return false;
                },
            }
        }
    }

    /// The tree with `new_task` in the place of the current node.
    pub fn replace_current(self, new_task: Task) -> (r: Self)
        requires
            (self@.cursor as int) < self@.nodes.len(),
        ensures
            r@ == (TreeView {
                nodes: self@.nodes.update(self@.cursor as int, new_task@),
                ..self@
            }),
    {
        let ptr: usize = self.ptr;
        self.replace_task(ptr, new_task)
    }

    /// The tree with `new_task` in the place of node `task_id`.
    pub fn replace_task(self, task_id: usize, new_task: Task) -> (r: Self)
        requires
            (task_id as int) < self@.nodes.len(),
        ensures
            r@ == (TreeView { nodes: self@.nodes.update(task_id as int, new_task@), ..self@ }),
    {
        let mut tree = self;
        tree.tasks.set(task_id, new_task);
        assert(tree@.nodes =~= self@.nodes.update(task_id as int, new_task@));
        tree
    }

    /// Takes the leaf `leaf` out of the arena: unlinks it from its parent,
    /// moves the last node into its slot, and lets every link to the moved
    /// node follow. A cursor on the leaf goes to its parent.
    pub(crate) fn remove_leaf(self, leaf: usize) -> (r: Self)
        requires
            self@.well_formed(),
            self@.is_leaf(leaf),
        ensures
            r@ == self@.pruned(leaf),
    {
        let ghost steps = PruneSteps::of(self@, leaf);
        let mut tree = self;
        proof {
            lemma_prune_facts(self@, leaf);
        }
        let up: usize = match tree.tasks[leaf].parent() {
            Some(p) => p,
            None => 0,
        };
        let detached = tree.tasks[up].clone().remove_child(leaf);
        tree.tasks.set(up, detached);
        assert(tree@.nodes =~= steps.unlinked);
        tree.tasks.swap_remove(leaf);
        assert(tree@.nodes =~= steps.shrunk);
        if tree.ptr == leaf {
            tree.ptr = up;
        }
        let last: usize = tree.tasks.len();
        if leaf < last {
            let q: usize = match tree.tasks[leaf].parent() {
                Some(p) => p,
                None => 0,
            };
            let patched = tree.tasks[q].clone().replace_child(last, leaf);
            tree.tasks.set(q, patched);
            assert(tree@.nodes =~= steps.patched);
            let kids: Vec<usize> = tree.tasks[leaf].children().clone();
            assert(kids@ == steps.kids);
            reparent(&mut tree.tasks, &kids, leaf);
            if tree.ptr == last {
                tree.ptr = leaf;
            }
        }
        proof {
            assert(tree@.nodes =~= steps.settled);
            lemma_prune_steps(self@, leaf);
        }
        tree
    }

    /// A walk over the children of the current node, in the order in which
    /// they were added.
    pub fn children(&self) -> (r: Children<'_>)
        requires
            self@.well_formed(),
        ensures
            r.well_formed(),
            r.nodes() == self@.nodes,
            r.upcoming() == self@.current().children,
    {
        proof {
            assert(has_valid_children(self@.nodes, self@.cursor as int));
        }
        let parent = self.current();
        let children = parent.children();
        let walk = Children { current: 0, indexes: children, tasks: &self.tasks };
        assert(walk.upcoming() =~= self@.current().children);
        walk
    }

    /// A walk over the children of `task`.
    pub fn children_of<'a>(&'a self, task: &'a Task) -> (r: Children<'a>)
        requires
            forall|k: int|
                0 <= k < task@.children.len() ==> (#[trigger] task@.children[k])
                    < self@.nodes.len(),
        ensures
            r.well_formed(),
            r.nodes() == self@.nodes,
            r.upcoming() == task@.children,
    {
        let children = task.children();
        let walk = Children { current: 0, indexes: children, tasks: &self.tasks };
        assert(walk.upcoming() =~= task@.children);
        walk
    }

    /// A walk over the children of the current node that are not complete.
    pub fn pending_children(&self) -> (r: PendingChildren<'_>)
        requires
            self@.well_formed(),
        ensures
            r.well_formed(),
            r.nodes() == self@.nodes,
            r.upcoming() == self@.pending_children(),
    {
        PendingChildren { inner: self.children() }
    }

    /// The index of the pending child of the current node at position `idx`,
    /// counted among the pending children only.
    pub fn nth_child(&self, idx: usize) -> (r: Result<usize, ToruError>)
        requires
            self@.well_formed(),
        ensures
            r == self@.nth_child(idx),
    {
        proof {
            assert(has_valid_children(self@.nodes, self@.cursor as int));
            reveal(Seq::filter);
        }
        let children = self.current().children();
        let mut seen: usize = 0;
        let mut i: usize = 0;
        while i < children.len()
            invariant
                i <= children.len(),
                children@ == self@.current().children,
                has_valid_children(self@.nodes, self@.cursor as int),
                seen == pending(self@.nodes, children@.take(i as int)).len(),
                seen <= idx,
                seen <= i,
            decreases children.len() - i,
        {
            let c: usize = children[i];
            proof {
                assert(children@.take(i as int + 1) =~= children@.take(i as int).push(c));
                lemma_pending_push(self@.nodes, children@.take(i as int), c);
                lemma_pending_prefix(self@.nodes, children@, i as int + 1);
            }
            if !self.tasks[c].is_complete() {
                if seen == idx {
                    return Ok(c);
                }
                seen += 1;
            }
            i += 1;
        }
        assert(children@.take(i as int) == children@);
        Err(ToruError::InvalidIndex(idx))
    }
}

/// A walk over a list of children: each step hands out the next child.
pub struct Children<'a> {
    current: usize,
    indexes: &'a Vec<usize>,
    tasks: &'a Vec<Task>,
}

impl<'a> Children<'a> {
    /// The nodes of the tree that is walked.
    pub closed spec fn nodes(&self) -> Seq<TaskView> {
        views(self.tasks@)
    }

    /// The indices of the children that are still to come.
    pub closed spec fn upcoming(&self) -> Seq<usize> {
        self.indexes@.skip(self.current as int)
    }

    /// Every child that is still to come is a node of the tree.
    pub closed spec fn well_formed(&self) -> bool {
        &&& self.current <= self.indexes@.len()
        &&& forall|k: int|
            self.current <= k < self.indexes@.len() ==> (#[trigger] self.indexes@[k])
                < self.tasks@.len()
    }

    /// The next child, or `None` when all have been handed out.
    pub fn next(&mut self) -> (r: Option<&'a Task>)
        requires
            old(self).well_formed(),
        ensures
            final(self).well_formed(),
            final(self).nodes() == old(self).nodes(),
            match r {
                Some(task) => {
                    &&& old(self).upcoming().len() > 0
                    &&& task@ == old(self).nodes()[old(self).upcoming()[0] as int]
                    &&& final(self).upcoming() == old(self).upcoming().drop_first()
                },
                None => old(self).upcoming().len() == 0 && final(self).upcoming() == old(
                    self,
                ).upcoming(),
            },
    {
        if self.current < self.indexes.len() {
            let idx: usize = self.indexes[self.current];
            self.current += 1;
            assert(final(self).upcoming() =~= old(self).upcoming().drop_first());
            return Some(&self.tasks[idx]);
        }
        None
    }
}

/// A walk over the children that are not complete.
pub struct PendingChildren<'a> {
    inner: Children<'a>,
}

impl<'a> PendingChildren<'a> {
    /// The nodes of the tree that is walked.
    pub closed spec fn nodes(&self) -> Seq<TaskView> {
        self.inner.nodes()
    }

    /// The indices of the pending children that are still to come.
    pub closed spec fn upcoming(&self) -> Seq<usize> {
        pending(self.inner.nodes(), self.inner.upcoming())
    }

    /// Every child that is still to come is a node of the tree.
    pub closed spec fn well_formed(&self) -> bool {
        self.inner.well_formed()
    }

    /// The next pending child, or `None` when all have been handed out.
    pub fn next(&mut self) -> (r: Option<&'a Task>)
        requires
            old(self).well_formed(),
        ensures
            final(self).well_formed(),
            final(self).nodes() == old(self).nodes(),
            match r {
                Some(task) => {
                    &&& old(self).upcoming().len() > 0
                    &&& task@ == old(self).nodes()[old(self).upcoming()[0] as int]
                    &&& final(self).upcoming() == old(self).upcoming().drop_first()
                },
                None => old(self).upcoming().len() == 0 && final(self).upcoming() == old(
                    self,
                ).upcoming(),
            },
    {
        loop
            invariant
                self.inner.well_formed(),
                self.nodes() == old(self).nodes(),
                self.upcoming() == old(self).upcoming(),
            decreases self.inner.upcoming().len(),
        {
            let ghost before = self.inner.upcoming();
            match self.inner.next() {
                Some(task) => {
                    proof {
                        lemma_pending_first(self.inner.nodes(), before);
                    }
                    if !task.is_complete() {
                        return Some(task);
                    }
                },
                None => {
                    proof {
                        reveal(Seq::filter);
                    }
                    return None;
                },
            }
        }
    }
}

/// Adds `task` under the current node. The new node gets the index that was
/// the number of nodes before; the cursor stays where it is.
pub fn add(tree: Tree, task: Task) -> (r: Tree)
    requires
        tree@.well_formed(),
    ensures
        r@ == tree@.added(task@),
        task@.children.len() == 0 ==> r@.well_formed(),
{
    let ghost before = tree@;
    let ghost given = task@;
    let mut tree = tree;
    let task = task.set_parent(tree.ptr());
    let index_of_child: usize = tree.tasks.len();
    let new_parent = tree.current_owned().add_child(index_of_child);
    tree.tasks.push(task);
    let tree = tree.replace_current(new_parent);
    proof {
        assert(tree@.nodes.len() == tree.tasks.len() <= usize::MAX);
        assert(tree@.nodes =~= before.added(given).nodes);
        if given.children.len() == 0 {
            lemma_added_well_formed(before, given);
        }
    }
    tree
}

/// Puts the cursor on the parent of the current node. On the root the cursor
/// stays where it is.
pub fn ascend(tree: Tree) -> (r: Tree)
    requires
        tree@.well_formed(),
    ensures
        r@ == tree@.ascended(),
        r@.well_formed(),
{
    let mut tree = tree;
    if tree.at_root() {
        return tree;
    }
    proof {
        assert(has_valid_parent(tree@.nodes, tree@.cursor as int));
    }
    match tree.current().parent() {
        Some(parent) => tree.set_ptr(parent),
        None => {},
    }
    tree
}

/// Puts the cursor on node `idx` if `idx` is a child of the current node,
/// and leaves it where it is otherwise.
pub fn descend(tree: Tree, idx: usize) -> (r: Tree)
    requires
        tree@.well_formed(),
    ensures
        r@ == tree@.descended(idx),
        r@.well_formed(),
{
    let mut tree = tree;
    if tree.current().is_child(idx) {
        proof {
            assert(has_valid_children(tree@.nodes, tree@.cursor as int));
        }
        tree.set_ptr(idx);
    }
    tree
}

/// Writes `parent` as the parent of each of the nodes `kids`.
fn reparent(tasks: &mut Vec<Task>, kids: &Vec<usize>, parent: usize)
    requires
        forall|a: int| 0 <= a < kids@.len() ==> (#[trigger] kids@[a]) < old(tasks)@.len(),
    ensures
        views(final(tasks)@) == reparented(views(old(tasks)@), kids@, parent),
{
    let ghost before = views(tasks@);
    let mut k: usize = 0;
    while k < kids.len()
        invariant
            k <= kids.len(),
            tasks.len() == before.len(),
            forall|a: int| 0 <= a < kids@.len() ==> (#[trigger] kids@[a]) < before.len(),
            views(tasks@) == reparented(before, kids@.take(k as int), parent),
        decreases kids.len() - k,
    {
        let c: usize = kids[k];
        let ghost now = views(tasks@);
        let child = tasks[c].clone().set_parent(parent);
        tasks.set(c, child);
        proof {
            let next = reparented(before, kids@.take(k as int + 1), parent);
            assert forall|x: int| 0 <= x < before.len() implies views(tasks@)[x] == next[x] by {
                let seen = kids@.take(k as int);
                let seen2 = kids@.take(k as int + 1);
                assert(now[x] == reparented(before, seen, parent)[x]);
                assert(seen2[k as int] == c);
                if seen.contains(x as usize) {
                    let a = choose|a: int| 0 <= a < seen.len() && seen[a] == x as usize;
                    assert(seen2[a] == x as usize);
                }
                if seen2.contains(x as usize) && x != c {
                    let a = choose|a: int| 0 <= a < seen2.len() && seen2[a] == x as usize;
                    assert(seen[a] == x as usize);
                }
            }
            assert(views(tasks@) =~= next);
        }
        k += 1;
    }
    assert(kids@.take(k as int) == kids@);
}

/// Marks node `idx` and every node under it as complete. The root is never
/// marked.
pub fn complete(tree: Tree, idx: usize) -> (r: Tree)
    requires
        tree@.well_formed(),
        (idx as int) < tree@.nodes.len(),
    ensures
        r@ == tree@.completed(idx),
        r@.well_formed(),
{
    if idx == 0 {
        return tree;
    }
    let ghost initial = tree@;
    let ghost rank = choose|rank: Seq<nat>| ranked(initial.nodes, rank);
    let ghost n = initial.nodes.len();
    let mut tree = tree;
    let mut ptr: usize = 0;
    let mut stack: Vec<usize> = Vec::new();
    stack.push(idx);
    // For each entry of the stack but the first, the place of its parent.
    let ghost mut from: Seq<int> = seq![0int];
    proof {
        assert(ancestor(initial.nodes, idx as int, 0) == idx);
    }
    while ptr < stack.len()
        invariant
            linked(initial.nodes),
            ranked(initial.nodes, rank),
            n == initial.nodes.len(),
            tree@.cursor == initial.cursor,
            tree@.nodes.len() == n,
            ptr <= stack.len(),
            stack.len() >= 1,
            stack@[0] == idx,
            stack@.no_duplicates(),
            from.len() == stack.len(),
            forall|k: int|
                0 <= k < stack.len() ==> {
                    &&& (#[trigger] stack@[k]) < n
                    &&& under(initial.nodes, idx as int, stack@[k] as int)
                    &&& rank[stack@[k] as int] <= rank[idx as int]
                },
            forall|k: int|
                1 <= k < stack.len() ==> 0 <= (#[trigger] from[k]) < ptr && initial.nodes[stack@[k] as int].parent
                    == Some(stack@[from[k]]),
            forall|j: int, t: int|
                0 <= j < ptr && 0 <= t < initial.nodes[stack@[j] as int].children.len()
                    ==> stack@.contains(#[trigger] initial.nodes[stack@[j] as int].children[t]),
            forall|j: int|
                0 <= j < ptr ==> tree@.nodes[#[trigger] stack@[j] as int] == (TaskView {
                    status: Status::Complete,
                    ..initial.nodes[stack@[j] as int]
                }),
            forall|i: int|
                0 <= i < n ==> (#[trigger] tree@.nodes[i]) == initial.nodes[i] || tree@.nodes[i]
                    == (TaskView { status: Status::Complete, ..initial.nodes[i] }),
            forall|i: int|
                0 <= i < n && (#[trigger] tree@.nodes[i]) != initial.nodes[i] ==> under(
                    initial.nodes,
                    idx as int,
                    i,
                ),
        decreases n - ptr,
    {
        proof {
            lemma_distinct_bounded(stack@, n);
        }
        let cur: usize = stack[ptr];
        assert(tree@.nodes[cur as int] == initial.nodes[cur as int] || tree@.nodes[cur as int] == (
        TaskView { status: Status::Complete, ..initial.nodes[cur as int] }));
        let completed_task = tree.tasks[cur].clone().complete();
        let children = completed_task.children();
        let ghost base = stack@;
        let mut t: usize = 0;
        proof {
            assert(has_valid_children(initial.nodes, cur as int));
        }
        while t < children.len()
            invariant
                linked(initial.nodes),
                ranked(initial.nodes, rank),
                n == initial.nodes.len(),
                cur < n,
                has_valid_children(initial.nodes, cur as int),
                children@ == initial.nodes[cur as int].children,
                t <= children.len(),
                ptr < base.len(),
                cur == base[ptr as int],
                stack.len() == base.len() + t,
                from.len() == stack.len(),
                stack@[0] == idx,
                stack@.no_duplicates(),
                forall|k: int| 0 <= k < base.len() ==> (#[trigger] stack@[k]) == base[k],
                forall|k: int| 0 <= k < t ==> (#[trigger] stack@[base.len() + k]) == children@[k],
                forall|k: int|
                    0 <= k < stack.len() ==> {
                        &&& (#[trigger] stack@[k]) < n
                        &&& under(initial.nodes, idx as int, stack@[k] as int)
                        &&& rank[stack@[k] as int] <= rank[idx as int]
                    },
                forall|k: int|
                    1 <= k < base.len() ==> 0 <= (#[trigger] from[k]) < ptr && initial.nodes[stack@[k] as int].parent
                        == Some(stack@[from[k]]),
                forall|k: int|
                    base.len() <= k < stack.len() ==> (#[trigger] from[k]) == ptr
                        && initial.nodes[stack@[k] as int].parent == Some(stack@[from[k]]),
            decreases children.len() - t,
        {
            let c: usize = children[t];
            proof {
                assert(c == initial.nodes[cur as int].children[t as int]);
                assert(initial.nodes[c as int].parent == Some(cur));
                assert(ranks_below_parent(initial.nodes, rank, c as int));
                assert(stack@[ptr as int] == cur);
                lemma_under_child(initial.nodes, idx as int, cur as int, c as int);
                assert forall|k: int| 0 <= k < stack.len() implies stack@[k] != c by {
                    if k == 0 {
                    } else if k < base.len() {
                        if stack@[k] == c {
                            assert(0 <= from[k] < ptr);
                            assert(stack@[from[k]] == stack@[ptr as int]);
                        }
                    } else {
                        assert(stack@[base.len() + (k - base.len())] == children@[k - base.len()]);
                    }
                }
                from = from.push(ptr as int);
            }
            stack.push(c);
            t += 1;
        }
        proof {
            assert forall|j: int, t: int|
                0 <= j < ptr + 1 && 0 <= t < initial.nodes[stack@[j] as int].children.len()
                implies stack@.contains(#[trigger] initial.nodes[stack@[j] as int].children[t]) by {
                if j < ptr {
                    assert(stack@[j] == base[j]);
                    let c = initial.nodes[base[j] as int].children[t];
                    assert(base.contains(c));
                    let k = choose|k: int| 0 <= k < base.len() && base[k] == c;
                    assert(stack@[k] == c);
                } else {
                    assert(stack@[base.len() + t] == children@[t]);
                }
            }
        }
        let ghost before = tree@;
        tree = tree.replace_task(cur, completed_task);
        ptr += 1;
        proof {
            assert forall|j: int| 0 <= j < ptr implies tree@.nodes[#[trigger] stack@[j] as int]
                == (TaskView {
                status: Status::Complete,
                ..initial.nodes[stack@[j] as int]
            }) by {
                if j < ptr - 1 {
                    assert(stack@[j] == base[j]);
                    assert(before.nodes[base[j] as int] == (TaskView {
                        status: Status::Complete,
                        ..initial.nodes[base[j] as int]
                    }));
                }
            }
        }
    }
    proof {
        let done = initial.completed(idx);
        assert forall|i: int| 0 <= i < n implies tree@.nodes[i] == done.nodes[i] by {
            assert(n == tree.tasks.len());
            if under(initial.nodes, idx as int, i) {
                let steps = choose|steps: nat| ancestor(initial.nodes, i, steps) == idx as int;
                assert(stack@.contains(idx));
                lemma_closed_under_children(initial.nodes, stack@, idx as int, i, steps);
                let j = choose|j: int| 0 <= j < stack.len() && stack@[j] == i as usize;
                assert(stack@[j] as int == i);
                assert(tree@.nodes[stack@[j] as int] == (TaskView {
                    status: Status::Complete,
                    ..initial.nodes[stack@[j] as int]
                }));
                assert(tree@.nodes[i] == done.nodes[i]);
            } else {
                assert(tree@.nodes[i] == initial.nodes[i]);
                assert(tree@.nodes[i] == done.nodes[i]);
            }
        }
        assert(tree@.nodes =~= done.nodes);
        assert forall|i: int| 0 <= i < n implies (#[trigger] initial.nodes[i]).parent
            == tree@.nodes[i].parent && initial.nodes[i].children == tree@.nodes[i].children by {
            assert(tree@.nodes[i] == initial.nodes[i] || tree@.nodes[i] == (TaskView {
                status: Status::Complete,
                ..initial.nodes[i]
            }));
        }
        lemma_same_links(initial.nodes, tree@.nodes);
        assert(ranked(tree@.nodes, rank));
    }
    tree
}

/// Removes node `idx` and every node under it. The root is never removed,
/// and an index that is not a node's removes nothing.
///
/// The nodes leave one by one, leaves first. Each time the last node of the
/// arena moves into the slot that became free, so the nodes that stay may
/// have new indices afterwards; the links between them follow. The cursor
/// stays on its node, or, where that node is removed, goes to the parent of
/// `idx`.
pub fn delete(tree: Tree, idx: usize) -> (r: Tree)
    requires
        tree@.well_formed(),
    ensures
        r@.well_formed(),
        idx == 0 || idx >= tree@.nodes.len() ==> r@ == tree@,
        0 < idx < tree@.nodes.len() ==> exists|place: Seq<int>, slot: Seq<int>|
            deletion(tree@, r@, idx, place, slot),
{
    if idx == 0 || idx >= tree.tasks.len() {
        return tree;
    }
    let ghost initial = tree@;
    let ghost top = idx as int;
    let ghost mut place: Seq<int> = Seq::new(initial.nodes.len(), |j: int| j);
    let ghost mut slot: Seq<int> = Seq::new(initial.nodes.len(), |j: int| j);
    let ghost mut gone: Set<int> = Set::empty();
    let mut tree = tree;
    let mut target: usize = idx;
    let mut done = false;
    proof {
        lemma_remainder_start(initial.nodes);
        assert(ancestor(initial.nodes, top, 0) == top);
    }
    while !done
        invariant
            initial.well_formed(),
            0 < top < initial.nodes.len(),
            top == idx,
            tree@.well_formed(),
            remainder(initial.nodes, tree@.nodes, place, slot, gone),
            place[0] == 0,
            forall|j: int| 0 <= j < tree@.nodes.len() ==> #[trigger] place[j] >= j,
            forall|i: int| gone.contains(i) ==> under(initial.nodes, top, i),
            !done ==> 0 < target < tree@.nodes.len() && place[target as int] == top,
            done ==> forall|i: int|
                0 <= i < initial.nodes.len() && under(initial.nodes, top, i) ==> gone.contains(i),
            !under(initial.nodes, top, initial.cursor as int) ==> place[tree@.cursor as int]
                == initial.cursor,
            under(initial.nodes, top, initial.cursor as int) ==> under(
                initial.nodes,
                top,
                place[tree@.cursor as int],
            ) || Some(place[tree@.cursor as int] as usize) == initial.nodes[top].parent,
        decreases tree@.nodes.len(),
    {
        let ghost rank = choose|rank: Seq<nat>| ranked(tree@.nodes, rank);
        let mut leaf: usize = target;
        proof {
            assert(ancestor(initial.nodes, top, 0) == top);
        }
        while tree.tasks[leaf].children().len() > 0
            invariant
                tree@.well_formed(),
                ranked(tree@.nodes, rank),
                remainder(initial.nodes, tree@.nodes, place, slot, gone),
                0 < leaf < tree@.nodes.len(),
                under(initial.nodes, top, place[leaf as int]),
            decreases rank[leaf as int],
        {
            let kids = tree.tasks[leaf].children();
            let c: usize = kids[kids.len() - 1];
            proof {
                assert(has_valid_children(tree@.nodes, leaf as int));
                assert(c == tree@.nodes[leaf as int].children[kids.len() - 1]);
                assert(ranks_below_parent(tree@.nodes, rank, c as int));
                assert(survives_as(initial.nodes, tree@.nodes, place, gone, c as int));
                assert(survives_as(initial.nodes, tree@.nodes, place, gone, leaf as int));
                lemma_under_child(initial.nodes, top, place[leaf as int], place[c as int]);
            }
            leaf = c;
        }
        let at_target = leaf == target;
        let last: usize = tree.tasks.len() - 1;
        let ghost before = tree@;
        proof {
            let g = place[leaf as int];
            assert(survives_as(initial.nodes, before.nodes, place, gone, leaf as int));
            assert(survives_as(initial.nodes, before.nodes, place, gone, before.cursor as int));
            assert(survives_as(initial.nodes, before.nodes, place, gone, last as int));
            assert(survives_as(initial.nodes, before.nodes, place, gone, 0));
            assert(has_valid_parent(before.nodes, leaf as int));
            let up = before.nodes[leaf as int].parent.unwrap();
            assert(survives_as(initial.nodes, before.nodes, place, gone, up as int));
            if at_target {
                assert forall|i: int|
                    0 <= i < initial.nodes.len() && under(initial.nodes, top, i) implies gone.insert(
                    g,
                ).contains(i) by {
                    if i != top {
                        let steps = choose|steps: nat| ancestor(initial.nodes, i, steps) == top;
                        lemma_cleared(
                            initial.nodes,
                            before.nodes,
                            place,
                            slot,
                            gone,
                            target,
                            i,
                            steps,
                        );
                    }
                }
            }
            if before.cursor == leaf && g != top {
                lemma_under_parent(initial.nodes, top, g);
            }
            lemma_pruned_well_formed(before, leaf);
            lemma_pruned_remainder(initial.nodes, before, leaf, place, slot, gone);
            gone = gone.insert(g);
            slot = slot_after(slot, place, leaf);
            place = place_after(place, leaf);
        }
        tree = tree.remove_leaf(leaf);
        if at_target {
            done = true;
        } else if target == last {
            target = leaf;
        }
    }
    proof {
        assert(gone =~= subtree(initial.nodes, top));
        assert(survives_as(initial.nodes, tree@.nodes, place, gone, tree@.cursor as int));
        assert(deletion(initial, tree@, idx, place, slot));
    }
    tree
}

} // verus!
