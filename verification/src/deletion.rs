//! What a whole deletion leaves behind: the nodes outside the subtree, under
//! new indices, with the links between them as they were.

use crate::model::{ancestor, has_valid_children, has_valid_parent, linked, subtree, TreeView};
use crate::prune::{
    lemma_relinked, lemma_without_absent, lemma_without_once, moved, origin, relinked, source,
};
use crate::task::{without, TaskView};
use vstd::prelude::*;

verus! {

/// Those of `children` that are not in `gone`, in the same order.
pub open spec fn kept(children: Seq<usize>, gone: Set<int>) -> Seq<usize> {
    children.filter(|c: usize| !gone.contains(c as int))
}

/// Node `j` of `now` is node `place[j]` of `old`: the same name, due date
/// and status, the same parent under its new index, and as children those
/// children that are not in `gone`, in the same order, under their new
/// indices.
pub open spec fn survives_as(
    old: Seq<TaskView>,
    now: Seq<TaskView>,
    place: Seq<int>,
    gone: Set<int>,
    j: int,
) -> bool {
    let o = old[place[j]];
    let c = now[j];
    &&& 0 <= place[j] < old.len()
    &&& !gone.contains(place[j])
    &&& c.name == o.name
    &&& c.due == o.due
    &&& c.status == o.status
    &&& match c.parent {
        Some(p) => (p as int) < now.len() && o.parent == Some(place[p as int] as usize),
        None => o.parent is None,
    }
    &&& c.children.len() == kept(o.children, gone).len()
    &&& forall|k: int|
        0 <= k < c.children.len() ==> {
            &&& (#[trigger] c.children[k] as int) < now.len()
            &&& place[c.children[k] as int] == kept(o.children, gone)[k]
        }
}

/// `now` is what is left of `old` once the nodes in `gone` have been taken
/// out. `place[j]` is the old index of the node that is now at `j`;
/// `slot[i]` is the index at which the old node `i` is now, or -1 where it
/// is gone.
pub open spec fn remainder(
    old: Seq<TaskView>,
    now: Seq<TaskView>,
    place: Seq<int>,
    slot: Seq<int>,
    gone: Set<int>,
) -> bool {
    &&& place.len() == now.len()
    &&& slot.len() == old.len()
    &&& old.len() <= usize::MAX
    &&& forall|j: int| 0 <= j < now.len() ==> #[trigger] survives_as(old, now, place, gone, j)
    &&& forall|j: int| 0 <= j < now.len() ==> slot[#[trigger] place[j]] == j
    &&& forall|i: int|
        0 <= i < old.len() ==> if gone.contains(i) {
            #[trigger] slot[i] == -1
        } else {
            0 <= slot[i] < now.len() && place[slot[i]] == i
        }
    &&& forall|i: int| gone.contains(i) ==> 0 <= i < old.len()
    &&& gone.finite()
    &&& gone.len() + now.len() == old.len()
}

/// What deleting node `idx` makes of a tree: exactly the nodes of the
/// subtree of `idx` are gone, the others are unchanged but for their
/// indices, which have not grown, and the cursor is on the node it was on,
/// or, where that node is gone, on the parent of `idx`.
pub open spec fn deletion(
    old: TreeView,
    new: TreeView,
    idx: usize,
    place: Seq<int>,
    slot: Seq<int>,
) -> bool {
    let removed = subtree(old.nodes, idx as int);
    &&& remainder(old.nodes, new.nodes, place, slot, removed)
    &&& place[0] == 0
    &&& forall|j: int| 0 <= j < new.nodes.len() ==> #[trigger] place[j] >= j
    &&& place[new.cursor as int] == if removed.contains(old.cursor as int) {
        old.nodes[idx as int].parent.unwrap() as int
    } else {
        old.cursor as int
    }
}

/// `place` after the node at the end has moved into slot `leaf`.
pub open spec fn place_after(place: Seq<int>, leaf: usize) -> Seq<int> {
    place.update(leaf as int, place.last()).drop_last()
}

/// `slot` after the node in slot `leaf` has gone and the node at the end has
/// moved into its slot.
pub open spec fn slot_after(slot: Seq<int>, place: Seq<int>, leaf: usize) -> Seq<int> {
    slot.update(place.last(), leaf as int).update(place[leaf as int], -1)
}

/// A tree is what is left of itself when nothing is gone.
pub proof fn lemma_remainder_start(nodes: Seq<TaskView>)
    requires
        linked(nodes),
    ensures
        remainder(
            nodes,
            nodes,
            Seq::new(nodes.len(), |j: int| j),
            Seq::new(nodes.len(), |j: int| j),
            Set::empty(),
        ),
{
    let place = Seq::new(nodes.len(), |j: int| j);
    let gone = Set::<int>::empty();
    assert forall|j: int| 0 <= j < nodes.len() implies #[trigger] survives_as(
        nodes,
        nodes,
        place,
        gone,
        j,
    ) by {
        lemma_kept_all(nodes[j].children, gone);
        assert(has_valid_children(nodes, j));
        if j > 0 {
            assert(has_valid_parent(nodes, j));
        }
    }
}

/// Where none of the children is gone, all are kept.
pub proof fn lemma_kept_all(children: Seq<usize>, gone: Set<int>)
    requires
        forall|k: int| 0 <= k < children.len() ==> !gone.contains(#[trigger] children[k] as int),
    ensures
        kept(children, gone) == children,
    decreases children.len(),
{
    reveal(Seq::filter);
    if children.len() > 0 {
        let front = children.drop_last();
        assert forall|k: int| 0 <= k < front.len() implies !gone.contains(
            #[trigger] front[k] as int,
        ) by {
            assert(front[k] == children[k]);
        }
        lemma_kept_all(front, gone);
        assert(!gone.contains(children[children.len() - 1] as int));
        assert(front.push(children.last()) =~= children);
    }
}

/// Keeping what is not in `gone` nor `g` is keeping what is not in `gone`,
/// and then leaving out `g`.
pub proof fn lemma_kept_after(children: Seq<usize>, gone: Set<int>, g: usize)
    ensures
        kept(children, gone.insert(g as int)) == without(kept(children, gone), g),
    decreases children.len(),
{
    reveal(Seq::filter);
    if children.len() > 0 {
        let front = children.drop_last();
        let c = children.last();
        lemma_kept_after(front, gone, g);
        let k = kept(front, gone);
        if !gone.contains(c as int) {
            assert(k.push(c).drop_last() =~= k);
        }
    }
}

/// The children of a node that stays, after a leaf has been pruned, are the
/// old children that are still there.
proof fn lemma_children_follow(
    children: Seq<usize>,
    olds: Seq<usize>,
    place: Seq<int>,
    slot: Seq<int>,
    gone: Set<int>,
    leaf: usize,
)
    requires
        place.len() > 0,
        place.len() - 1 <= usize::MAX,
        leaf < place.len(),
        children.no_duplicates(),
        forall|j: int| 0 <= j < place.len() ==> slot[#[trigger] place[j]] == j,
        forall|j: int| 0 <= j < place.len() ==> 0 <= #[trigger] place[j] <= usize::MAX,
        children.len() == kept(olds, gone).len(),
        forall|k: int|
            0 <= k < children.len() ==> {
                &&& (#[trigger] children[k] as int) < place.len()
                &&& place[children[k] as int] == kept(olds, gone)[k]
            },
    ensures
        ({
            let last = (place.len() - 1) as usize;
            let after = relinked(children, leaf, last);
            let gone2 = gone.insert(place[leaf as int]);
            &&& after.len() == kept(olds, gone2).len()
            &&& forall|k: int|
                0 <= k < after.len() ==> {
                    &&& (#[trigger] after[k] as int) < last
                    &&& place_after(place, leaf)[after[k] as int] == kept(olds, gone2)[k]
                }
        }),
{
    let last = (place.len() - 1) as usize;
    let after = relinked(children, leaf, last);
    let g = place[leaf as int] as usize;
    let gone2 = gone.insert(place[leaf as int]);
    let ks = kept(olds, gone);
    lemma_kept_after(olds, gone, g);
    lemma_relinked(children, leaf, last);
    assert(ks.no_duplicates()) by {
        assert forall|a: int, b: int| 0 <= a < ks.len() && 0 <= b < ks.len() && a != b implies ks[a]
            != ks[b] by {
            assert(place[children[a] as int] == ks[a]);
            assert(place[children[b] as int] == ks[b]);
            assert(slot[place[children[a] as int]] == children[a]);
            assert(slot[place[children[b] as int]] == children[b]);
        }
    }
    if children.contains(leaf) {
        let at = children.index_of(leaf);
        assert(place[children[at] as int] == ks[at]);
        lemma_without_once(ks, g, at);
    } else {
        assert(!ks.contains(g)) by {
            if ks.contains(g) {
                let a = choose|a: int| 0 <= a < ks.len() && ks[a] == g;
                assert(place[children[a] as int] == ks[a]);
                assert(slot[place[children[a] as int]] == children[a]);
                assert(slot[place[leaf as int]] == leaf);
            }
        }
        lemma_without_absent(ks, g);
    }
    assert forall|k: int| 0 <= k < after.len() implies {
        &&& (#[trigger] after[k] as int) < last
        &&& place_after(place, leaf)[after[k] as int] == kept(olds, gone2)[k]
    } by {
        let a = origin(children, leaf, k);
        let c = children[a];
        assert(after[k] == moved(c, leaf, last));
        assert(place[c as int] == ks[a]);
    }
}

/// Pruning a leaf of what is left of a tree gives what is left of it once
/// that leaf is gone too.
pub proof fn lemma_pruned_remainder(
    old: Seq<TaskView>,
    t: TreeView,
    leaf: usize,
    place: Seq<int>,
    slot: Seq<int>,
    gone: Set<int>,
)
    requires
        t.well_formed(),
        t.is_leaf(leaf),
        remainder(old, t.nodes, place, slot, gone),
    ensures
        remainder(
            old,
            t.pruned(leaf).nodes,
            place_after(place, leaf),
            slot_after(slot, place, leaf),
            gone.insert(place[leaf as int]),
        ),
{
    let n = t.nodes.len();
    let last = (n - 1) as usize;
    let new = t.pruned(leaf).nodes;
    let place2 = place_after(place, leaf);
    let slot2 = slot_after(slot, place, leaf);
    let g = place[leaf as int];
    let gone2 = gone.insert(g);
    assert(survives_as(old, t.nodes, place, gone, leaf as int));
    assert(survives_as(old, t.nodes, place, gone, last as int));
    assert(slot[place[leaf as int]] == leaf);
    assert(slot[place[last as int]] == last);
    assert forall|j: int| 0 <= j < last implies #[trigger] survives_as(
        old,
        new,
        place2,
        gone2,
        j,
    ) by {
        lemma_survivor_follows(old, t, leaf, place, slot, gone, j);
    }
    assert forall|j: int| 0 <= j < last implies slot2[#[trigger] place2[j]] == j by {
        let src = source(j, leaf, last);
        assert(survives_as(old, t.nodes, place, gone, src));
        assert(slot[place[src]] == src);
        assert(place2[j] == place[src]);
    }
    assert forall|i: int| 0 <= i < old.len() implies if gone2.contains(i) {
        #[trigger] slot2[i] == -1
    } else {
        0 <= slot2[i] < last && place2[slot2[i]] == i
    } by {
        if !gone2.contains(i) {
            assert(!gone.contains(i));
            assert(place[slot[i]] == i);
        }
    }
}

/// One node of what is left, after a leaf has been pruned.
proof fn lemma_survivor_follows(
    old: Seq<TaskView>,
    t: TreeView,
    leaf: usize,
    place: Seq<int>,
    slot: Seq<int>,
    gone: Set<int>,
    j: int,
)
    requires
        t.well_formed(),
        t.is_leaf(leaf),
        remainder(old, t.nodes, place, slot, gone),
        0 <= j < t.nodes.len() - 1,
    ensures
        survives_as(
            old,
            t.pruned(leaf).nodes,
            place_after(place, leaf),
            gone.insert(place[leaf as int]),
            j,
        ),
{
    let n = t.nodes.len();
    let last = (n - 1) as usize;
    let new = t.pruned(leaf).nodes;
    let place2 = place_after(place, leaf);
    let g = place[leaf as int];
    let gone2 = gone.insert(g);
    let src = source(j, leaf, last);
    assert(survives_as(old, t.nodes, place, gone, leaf as int));
    assert(survives_as(old, t.nodes, place, gone, src));
    assert(slot[place[leaf as int]] == leaf);
    assert(slot[place[src]] == src);
    assert(place2[j] == place[src]);
    assert(has_valid_children(t.nodes, src));
    if src > 0 {
        assert(has_valid_parent(t.nodes, src));
        let p = t.nodes[src].parent.unwrap();
        assert(has_valid_children(t.nodes, p as int));
        assert(p != leaf);
        assert(place2[moved(p, leaf, last) as int] == place[p as int]);
    }
    assert forall|x: int| 0 <= x < place.len() implies 0 <= #[trigger] place[x] <= usize::MAX by {
        assert(survives_as(old, t.nodes, place, gone, x));
    }
    lemma_children_follow(t.nodes[src].children, old[place[src]].children, place, slot, gone, leaf);
}

/// When the root of the subtree has become a leaf, every other node of the
/// subtree is gone.
pub proof fn lemma_cleared(
    old: Seq<TaskView>,
    now: Seq<TaskView>,
    place: Seq<int>,
    slot: Seq<int>,
    gone: Set<int>,
    target: usize,
    i: int,
    steps: nat,
)
    requires
        linked(now),
        remainder(old, now, place, slot, gone),
        target < now.len(),
        now[target as int].children.len() == 0,
        0 <= i < old.len(),
        i != place[target as int],
        ancestor(old, i, steps) == place[target as int],
    ensures
        gone.contains(i),
    decreases steps,
{
    if !gone.contains(i) {
        let j = slot[i];
        assert(place[j] == i);
        assert(survives_as(old, now, place, gone, j));
        assert(survives_as(old, now, place, gone, target as int));
        assert(steps > 0);
        let p = old[i].parent.unwrap() as int;
        let parent_now = now[j].parent.unwrap() as int;
        assert(now[j].parent is Some);
        assert(survives_as(old, now, place, gone, parent_now));
        assert(place[parent_now] == p);
        assert(slot[place[parent_now]] == parent_now);
        assert(slot[place[target as int]] == target);
        if p == place[target as int] {
            assert(j != 0);
            assert(has_valid_parent(now, j));
        } else {
            lemma_cleared(old, now, place, slot, gone, target, p, (steps - 1) as nat);
        }
    }
}

} // verus!
