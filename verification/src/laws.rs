//! What holds of every well-formed tree and of every operation on it.

use crate::deletion::{deletion, survives_as};
use crate::lemmas::{
    lemma_pending_bounded, lemma_pending_members, lemma_pending_push, lemma_pending_same,
    lemma_reaches_root,
};
use crate::model::{
    ancestor, has_valid_children, has_valid_parent, pending, ranked, subtree, under, TreeView,
};
use crate::task::TaskView;
use vstd::prelude::*;

verus! {

/// The root is under no other node.
pub proof fn lemma_root_on_top(t: TreeView, top: int)
    requires
        t.well_formed(),
        top > 0,
    ensures
        !under(t.nodes, top, 0),
{
    assert forall|steps: nat| ancestor(t.nodes, 0, steps) != top by {
        if steps > 0 {
            assert(ancestor(t.nodes, 0, steps) == -1);
        }
    }
}

/// Every node of a well-formed tree is the root or hangs under it.
pub proof fn law_all_under_root(t: TreeView, i: int)
    requires
        t.well_formed(),
        0 <= i < t.nodes.len(),
    ensures
        under(t.nodes, 0, i),
{
    let rank = choose|rank: Seq<nat>| ranked(t.nodes, rank);
    lemma_reaches_root(t.nodes, rank, i);
}

/// Node 0 of a well-formed tree is the root: it has no parent. Adding,
/// completing and moving the cursor leave it in its place.
pub proof fn law_root_stays(t: TreeView, task: TaskView, idx: usize)
    requires
        t.well_formed(),
    ensures
        t.nodes.len() > 0,
        t.nodes[0].parent is None,
        t.added(task).nodes[0].parent is None,
        t.added(task).nodes[0].name == t.nodes[0].name,
        t.completed(idx).nodes[0] == t.nodes[0],
        t.ascended().nodes[0] == t.nodes[0],
        t.descended(idx).nodes[0] == t.nodes[0],
{
    if idx != 0 {
        lemma_root_on_top(t, idx as int);
    }
}

/// A deletion never removes the root: what was node 0 is node 0 afterwards.
pub proof fn law_delete_keeps_root(
    old: TreeView,
    new: TreeView,
    idx: usize,
    place: Seq<int>,
    slot: Seq<int>,
)
    requires
        old.well_formed(),
        new.well_formed(),
        deletion(old, new, idx, place, slot),
    ensures
        !subtree(old.nodes, idx as int).contains(0),
        place[0] == 0,
        new.nodes[0].name == old.nodes[0].name,
        new.nodes[0].due == old.nodes[0].due,
        new.nodes[0].status == old.nodes[0].status,
        new.nodes[0].parent is None,
{
    assert(survives_as(old.nodes, new.nodes, place, subtree(old.nodes, idx as int), 0));
}

/// Parents and children refer to each other: node `i` names `p` as its
/// parent exactly if `p` lists `i` as a child, and no child is listed twice.
pub proof fn law_back_reference(t: TreeView, i: usize, p: usize)
    requires
        t.well_formed(),
        i < t.nodes.len(),
        p < t.nodes.len(),
    ensures
        t.nodes[i as int].parent == Some(p) <==> t.nodes[p as int].children.contains(i),
        t.nodes[p as int].children.no_duplicates(),
{
    assert(has_valid_children(t.nodes, p as int));
    if i > 0 {
        assert(has_valid_parent(t.nodes, i as int));
    }
    if t.nodes[p as int].children.contains(i) {
        let k = choose|k: int|
            0 <= k < t.nodes[p as int].children.len() && t.nodes[p as int].children[k] == i;
        assert(t.nodes[t.nodes[p as int].children[k] as int].parent == Some(p));
    }
}

/// A task that is added is the last of the current node's children, so a
/// pending one is the last of the pending children: its position among them
/// is the number of pending children there were before, and that position
/// resolves to the index that the task was given.
pub proof fn law_add_then_resolve(t: TreeView, task: TaskView)
    requires
        t.well_formed(),
        t.nodes.len() < usize::MAX,
        !task.is_complete(),
    ensures
        t.added(task).pending_children() == t.pending_children().push(t.nodes.len() as usize),
        t.pending_children().len() <= usize::MAX,
        t.added(task).nth_child(t.pending_children().len() as usize) == Ok::<
            usize,
            crate::error::ToruError,
        >(t.nodes.len() as usize),
{
    let n = t.nodes.len() as usize;
    let new = t.added(task);
    let children = t.current().children;
    assert(has_valid_children(t.nodes, t.cursor as int));
    lemma_pending_push(new.nodes, children, n);
    lemma_pending_same(t.nodes, new.nodes, children);
    lemma_pending_bounded(t);
}

/// Deleting node `idx` removes the nodes of its subtree and no others: the
/// tree shrinks by one more than the number of descendants of `idx`, an old
/// node has a place in the new tree exactly if it is not in the subtree, and
/// no link of the new tree leads to a node that was removed.
pub proof fn law_delete_completeness(
    old: TreeView,
    new: TreeView,
    idx: usize,
    place: Seq<int>,
    slot: Seq<int>,
)
    requires
        old.well_formed(),
        new.well_formed(),
        0 < idx < old.nodes.len(),
        deletion(old, new, idx, place, slot),
    ensures
        subtree(old.nodes, idx as int).finite(),
        subtree(old.nodes, idx as int).contains(idx as int),
        new.nodes.len() == old.nodes.len() - (1 + subtree(old.nodes, idx as int).remove(
            idx as int,
        ).len()),
        forall|i: int|
            0 <= i < old.nodes.len() ==> (under(old.nodes, idx as int, i) <==> #[trigger] slot[i]
                == -1),
        forall|i: int|
            0 <= i < old.nodes.len() && !under(old.nodes, idx as int, i) ==> 0 <= #[trigger] slot[i]
                < new.nodes.len() && place[slot[i]] == i,
        forall|j: int|
            0 <= j < new.nodes.len() ==> !under(old.nodes, idx as int, #[trigger] place[j]),
        forall|j: int, k: int|
            0 <= j < new.nodes.len() && 0 <= k < new.nodes[j].children.len() ==> !under(
                old.nodes,
                idx as int,
                place[#[trigger] new.nodes[j].children[k] as int],
            ),
        forall|j: int|
            0 <= j < new.nodes.len() && new.nodes[j].parent is Some ==> !under(
                old.nodes,
                idx as int,
                place[(#[trigger] new.nodes[j]).parent.unwrap() as int],
            ),
{
    let removed = subtree(old.nodes, idx as int);
    assert(ancestor(old.nodes, idx as int, 0) == idx as int);
    assert forall|i: int| 0 <= i < old.nodes.len() implies (under(old.nodes, idx as int, i)
        <==> #[trigger] slot[i] == -1) by {
        assert(removed.contains(i) == under(old.nodes, idx as int, i));
    }
    assert forall|j: int| 0 <= j < new.nodes.len() implies !under(
        old.nodes,
        idx as int,
        #[trigger] place[j],
    ) by {
        assert(survives_as(old.nodes, new.nodes, place, removed, j));
    }
    assert forall|j: int, k: int|
        0 <= j < new.nodes.len() && 0 <= k < new.nodes[j].children.len() implies !under(
        old.nodes,
        idx as int,
        place[#[trigger] new.nodes[j].children[k] as int],
    ) by {
        assert(has_valid_children(new.nodes, j));
        let c = new.nodes[j].children[k] as int;
        assert(survives_as(old.nodes, new.nodes, place, removed, c));
    }
    assert forall|j: int| 0 <= j < new.nodes.len() && new.nodes[j].parent is Some implies !under(
        old.nodes,
        idx as int,
        place[(#[trigger] new.nodes[j]).parent.unwrap() as int],
    ) by {
        assert(j != 0);
        assert(has_valid_parent(new.nodes, j));
        let p = new.nodes[j].parent.unwrap() as int;
        assert(survives_as(old.nodes, new.nodes, place, removed, p));
    }
}

/// Completing node `idx` marks it and every node under it, and so no node
/// lists `idx` among its pending children afterwards.
pub proof fn law_complete_cascade(t: TreeView, idx: usize, j: int, p: int)
    requires
        t.well_formed(),
        0 < idx < t.nodes.len(),
        0 <= j < t.nodes.len(),
        0 <= p < t.nodes.len(),
    ensures
        t.completed(idx).nodes[idx as int].is_complete(),
        under(t.nodes, idx as int, j) ==> t.completed(idx).nodes[j].is_complete(),
        t.nodes[j].is_complete() ==> t.completed(idx).nodes[j].is_complete(),
        !pending(t.completed(idx).nodes, t.completed(idx).nodes[p].children).contains(idx),
{
    let done = t.completed(idx);
    assert(ancestor(t.nodes, idx as int, 0) == idx as int);
    lemma_pending_members(done.nodes, done.nodes[p].children);
}

} // verus!
