//! Taking one leaf out of the arena: the last node moves into the slot of
//! the leaf, and every link to the moved node follows.

use crate::model::{has_valid_children, has_valid_parent, ranked, ranks_below_parent, TreeView};
use crate::task::{renamed, without, TaskView};
use vstd::prelude::*;

verus! {

/// Where index `x` points after the node at `last` has moved to `leaf`.
pub open spec fn moved(x: usize, leaf: usize, last: usize) -> usize {
    if x == last {
        leaf
    } else {
        x
    }
}

/// A list of children after leaf `leaf` has left the tree and the node at
/// `last` has moved into its slot.
pub open spec fn relinked(children: Seq<usize>, leaf: usize, last: usize) -> Seq<usize> {
    renamed(without(children, leaf), last, leaf)
}

impl TreeView {
    /// Node `leaf` is a leaf of the tree, and not the root.
    pub open spec fn is_leaf(self, leaf: usize) -> bool {
        &&& 0 < leaf < self.nodes.len()
        &&& self.nodes[leaf as int].children.len() == 0
    }

    /// The tree without its leaf `leaf`. The last node takes the slot of the
    /// leaf, and every link to it follows. A cursor on the leaf goes to the
    /// leaf's parent.
    pub open spec fn pruned(self, leaf: usize) -> TreeView {
        let last = (self.nodes.len() - 1) as usize;
        let up = self.nodes[leaf as int].parent.unwrap();
        TreeView {
            cursor: moved(if self.cursor == leaf { up } else { self.cursor }, leaf, last),
            nodes: Seq::new(
                last as nat,
                |j: int|
                    {
                        let node = self.nodes[if j == leaf { last as int } else { j }];
                        TaskView {
                            parent: match node.parent {
                                Some(p) => Some(moved(p, leaf, last)),
                                None => None,
                            },
                            children: relinked(node.children, leaf, last),
                            ..node
                        }
                    },
            ),
        }
    }
}

/// Leaving out what does not occur changes nothing.
pub proof fn lemma_without_absent(children: Seq<usize>, child: usize)
    requires
        !children.contains(child),
    ensures
        without(children, child) == children,
    decreases children.len(),
{
    reveal(Seq::filter);
    if children.len() > 0 {
        let front = children.drop_last();
        assert forall|k: int| 0 <= k < front.len() implies front[k] != child by {
            assert(children[k] == front[k]);
        }
        lemma_without_absent(front, child);
        assert(children.last() != child) by {
            assert(children[children.len() - 1] == children.last());
        }
        assert(front.push(children.last()) =~= children);
    }
}

/// Leaving out what occurs once, at `at`, removes that one entry.
pub proof fn lemma_without_once(children: Seq<usize>, child: usize, at: int)
    requires
        children.no_duplicates(),
        0 <= at < children.len(),
        children[at] == child,
    ensures
        without(children, child) == children.remove(at),
    decreases children.len(),
{
    reveal(Seq::filter);
    let front = children.drop_last();
    if at == children.len() - 1 {
        assert forall|k: int| 0 <= k < front.len() implies front[k] != child by {
            assert(children[k] == front[k]);
        }
        lemma_without_absent(front, child);
        assert(children.remove(at) =~= front);
    } else {
        assert(front.no_duplicates());
        assert(front[at] == child);
        lemma_without_once(front, child, at);
        assert(children.last() != child);
        assert(front.remove(at).push(children.last()) =~= children.remove(at));
    }
}

/// Renaming what does not occur changes nothing.
pub proof fn lemma_renamed_absent(children: Seq<usize>, from: usize, to: usize)
    requires
        !children.contains(from),
    ensures
        renamed(children, from, to) == children,
{
    assert forall|k: int| 0 <= k < children.len() implies children[k] != from by {
        assert(children.contains(children[k]));
    }
    assert(renamed(children, from, to) =~= children);
}

/// What is left after `child` has been left out: entries of the list, and
/// none of them `child`.
pub proof fn lemma_without_members(children: Seq<usize>, child: usize)
    ensures
        !without(children, child).contains(child),
        forall|c: usize| #[trigger] without(children, child).contains(c) ==> children.contains(c),
    decreases children.len(),
{
    reveal(Seq::filter);
    let w = without(children, child);
    if children.len() > 0 {
        let front = children.drop_last();
        let wf = without(front, child);
        lemma_without_members(front, child);
        assert forall|k: int| 0 <= k < w.len() implies w[k] != child && children.contains(w[k]) by {
            if k < wf.len() {
                assert(w[k] == wf[k]);
                assert(wf.contains(wf[k]));
                assert(front.contains(wf[k]));
                let a = choose|a: int| 0 <= a < front.len() && front[a] == wf[k];
                assert(children[a] == wf[k]);
            } else {
                assert(w[k] == children.last());
                assert(children[children.len() - 1] == w[k]);
            }
        }
    }
    assert forall|c: usize| #[trigger] w.contains(c) implies children.contains(c) && c != child by {
        let k = choose|k: int| 0 <= k < w.len() && w[k] == c;
        assert(w[k] != child && children.contains(w[k]));
    }
}

/// What is not left out stays in the list.
pub proof fn lemma_without_keeps(children: Seq<usize>, child: usize, c: usize)
    requires
        children.contains(c),
        c != child,
    ensures
        without(children, child).contains(c),
    decreases children.len(),
{
    reveal(Seq::filter);
    let front = children.drop_last();
    let kept = without(children, child);
    if children.last() == c {
        assert(kept[kept.len() - 1] == c);
    } else {
        let a = choose|a: int| 0 <= a < children.len() && children[a] == c;
        assert(front[a] == c);
        lemma_without_keeps(front, child, c);
        let k = choose|k: int|
            0 <= k < without(front, child).len() && without(front, child)[k] == c;
        assert(kept[k] == c);
    }
}

/// The place in `children` of what stands at place `k` once `leaf` has been
/// left out.
pub open spec fn origin(children: Seq<usize>, leaf: usize, k: int) -> int {
    if children.contains(leaf) && k >= children.index_of(leaf) {
        k + 1
    } else {
        k
    }
}

/// What `relinked` does to a list without duplicates, entry by entry: the
/// leaf is left out, and the others follow the move.
pub proof fn lemma_relinked(children: Seq<usize>, leaf: usize, last: usize)
    requires
        children.no_duplicates(),
    ensures
        relinked(children, leaf, last).len() == children.len() - if children.contains(leaf) {
            1int
        } else {
            0int
        },
        forall|k: int|
            0 <= k < relinked(children, leaf, last).len() ==> {
                &&& 0 <= origin(children, leaf, k) < children.len()
                &&& children[origin(children, leaf, k)] != leaf
                &&& (#[trigger] relinked(children, leaf, last)[k]) == moved(
                    children[origin(children, leaf, k)],
                    leaf,
                    last,
                )
            },
{
    if children.contains(leaf) {
        let at = children.index_of(leaf);
        lemma_without_once(children, leaf, at);
    } else {
        lemma_without_absent(children, leaf);
    }
}

/// The slot of the old tree whose node stands in slot `j` of the pruned tree.
pub open spec fn source(j: int, leaf: usize, last: usize) -> int {
    if j == leaf {
        last as int
    } else {
        j
    }
}

/// A child other than the leaf is still a child after the leaf has gone,
/// under its new index.
pub proof fn lemma_relinked_keeps(children: Seq<usize>, leaf: usize, last: usize, c: usize)
    requires
        children.no_duplicates(),
        children.contains(c),
        c != leaf,
    ensures
        relinked(children, leaf, last).contains(moved(c, leaf, last)),
{
    lemma_relinked(children, leaf, last);
    let r = relinked(children, leaf, last);
    let a = choose|a: int| 0 <= a < children.len() && children[a] == c;
    let k = if children.contains(leaf) && a > children.index_of(leaf) {
        a - 1
    } else {
        a
    };
    assert(origin(children, leaf, k) == a);
    assert(r[k] == moved(children[a], leaf, last));
}

/// No entry of a relinked list occurs twice.
proof fn lemma_relinked_distinct(children: Seq<usize>, leaf: usize, last: usize)
    requires
        children.no_duplicates(),
    ensures
        relinked(children, leaf, last).no_duplicates(),
{
    lemma_relinked(children, leaf, last);
    let r = relinked(children, leaf, last);
    assert forall|k1: int, k2: int| 0 <= k1 < r.len() && 0 <= k2 < r.len() && k1 != k2 implies r[k1]
        != r[k2] by {
        let a1 = origin(children, leaf, k1);
        let a2 = origin(children, leaf, k2);
        assert(r[k1] == moved(children[a1], leaf, last));
        assert(r[k2] == moved(children[a2], leaf, last));
        assert(children[a1] != children[a2]);
    }
}

/// Pruning a leaf keeps the tree well formed.
pub proof fn lemma_pruned_well_formed(t: TreeView, leaf: usize)
    requires
        t.well_formed(),
        t.is_leaf(leaf),
    ensures
        t.pruned(leaf).well_formed(),
        t.pruned(leaf).nodes.len() == t.nodes.len() - 1,
{
    let n = t.nodes.len();
    let last = (n - 1) as usize;
    let new = t.pruned(leaf);
    let rank = choose|rank: Seq<nat>| ranked(t.nodes, rank);
    let rank2 = Seq::new(last as nat, |j: int| rank[source(j, leaf, last)]);
    assert(has_valid_parent(t.nodes, leaf as int));
    let up = t.nodes[leaf as int].parent.unwrap();
    assert(up != leaf);
    // The parent of a node that stays, and where it stands afterwards.
    assert forall|j: int| 0 < j < last implies {
        let s = source(j, leaf, last);
        let p = t.nodes[s].parent.unwrap();
        &&& 0 < s < n
        &&& s != leaf
        &&& t.nodes[s].parent is Some
        &&& p < n
        &&& p != leaf
        &&& moved(p, leaf, last) < last
        &&& source(moved(p, leaf, last) as int, leaf, last) == p
        &&& #[trigger] new.nodes[j].parent == Some(moved(p, leaf, last))
    } by {
        let s = source(j, leaf, last);
        assert(has_valid_parent(t.nodes, s));
    }
    assert forall|j: int| 0 < j < last implies #[trigger] has_valid_parent(new.nodes, j) by {
        let s = source(j, leaf, last);
        assert(has_valid_parent(t.nodes, s));
        let p = t.nodes[s].parent.unwrap();
        let parent_now = moved(p, leaf, last);
        assert(new.nodes[j].parent == Some(parent_now));
        assert(has_valid_children(t.nodes, p as int));
        lemma_relinked_keeps(t.nodes[p as int].children, leaf, last, s as usize);
        assert(moved(s as usize, leaf, last) == j);
        assert(new.nodes[parent_now as int].children == relinked(t.nodes[p as int].children, leaf, last));
    }
    assert forall|j: int| 0 <= j < last implies #[trigger] has_valid_children(new.nodes, j) by {
        let s = source(j, leaf, last);
        assert(has_valid_children(t.nodes, s));
        let cs = t.nodes[s].children;
        let r = relinked(cs, leaf, last);
        assert(new.nodes[j].children == r);
        lemma_relinked(cs, leaf, last);
        lemma_relinked_distinct(cs, leaf, last);
        assert forall|k: int| 0 <= k < r.len() implies {
            &&& (#[trigger] r[k]) < last
            &&& new.nodes[r[k] as int].parent == Some(j as usize)
        } by {
            let a = origin(cs, leaf, k);
            let c = cs[a];
            assert(r[k] == moved(c, leaf, last));
            assert(c < n);
            assert(t.nodes[c as int].parent == Some(s as usize));
            assert(source(r[k] as int, leaf, last) == c);
            assert(moved(s as usize, leaf, last) == j);
        }
    }
    assert forall|j: int| 0 <= j < last implies #[trigger] ranks_below_parent(
        new.nodes,
        rank2,
        j,
    ) by {
        let s = source(j, leaf, last);
        assert(ranks_below_parent(t.nodes, rank, s));
        if s > 0 {
            assert(has_valid_parent(t.nodes, s));
            assert(has_valid_children(t.nodes, t.nodes[s].parent.unwrap() as int));
        }
    }
    assert(ranked(new.nodes, rank2));
}

/// The nodes with `parent` written as the parent of each of the nodes
/// `kids`.
pub open spec fn reparented(nodes: Seq<TaskView>, kids: Seq<usize>, parent: usize) -> Seq<
    TaskView,
> {
    Seq::new(
        nodes.len(),
        |x: int|
            if kids.contains(x as usize) {
                TaskView { parent: Some(parent), ..nodes[x] }
            } else {
                nodes[x]
            },
    )
}

/// The arena after each step of taking out a leaf.
pub ghost struct PruneSteps {
    /// The leaf is no longer a child of its parent.
    pub unlinked: Seq<TaskView>,
    /// The last node stands in the slot of the leaf.
    pub shrunk: Seq<TaskView>,
    /// The parent of the moved node knows its new index.
    pub patched: Seq<TaskView>,
    /// The children of the moved node.
    pub kids: Seq<usize>,
    /// The children of the moved node know its new index.
    pub settled: Seq<TaskView>,
}

impl PruneSteps {
    /// The arena after each step of taking `leaf` out of `t`.
    pub open spec fn of(t: TreeView, leaf: usize) -> PruneSteps {
        let last = (t.nodes.len() - 1) as usize;
        let up = t.nodes[leaf as int].parent.unwrap() as int;
        let unlinked = t.nodes.update(
            up,
            TaskView { children: without(t.nodes[up].children, leaf), ..t.nodes[up] },
        );
        let shrunk = unlinked.update(leaf as int, unlinked.last()).drop_last();
        if leaf < last {
            let q = shrunk[leaf as int].parent.unwrap() as int;
            let patched = shrunk.update(
                q,
                TaskView { children: renamed(shrunk[q].children, last, leaf), ..shrunk[q] },
            );
            let kids = patched[leaf as int].children;
            PruneSteps { unlinked, shrunk, patched, kids, settled: reparented(patched, kids, leaf) }
        } else {
            PruneSteps { unlinked, shrunk, patched: shrunk, kids: Seq::empty(), settled: shrunk }
        }
    }
}

/// What the steps of taking out a leaf may rely on: the indices they use
/// are indices of nodes.
pub proof fn lemma_prune_facts(t: TreeView, leaf: usize)
    requires
        t.well_formed(),
        t.is_leaf(leaf),
    ensures
        t.nodes[leaf as int].parent is Some,
        (t.nodes[leaf as int].parent.unwrap() as int) < t.nodes.len(),
        t.nodes[leaf as int].parent.unwrap() != leaf,
        leaf < t.nodes.len() - 1 ==> {
            let steps = PruneSteps::of(t, leaf);
            &&& steps.shrunk[leaf as int].parent is Some
            &&& (steps.shrunk[leaf as int].parent.unwrap() as int) < t.nodes.len() - 1
            &&& forall|a: int|
                0 <= a < steps.kids.len() ==> (#[trigger] steps.kids[a]) < t.nodes.len() - 1
        },
{
    let n = t.nodes.len();
    let last = (n - 1) as usize;
    let rank = choose|rank: Seq<nat>| ranked(t.nodes, rank);
    assert(has_valid_parent(t.nodes, leaf as int));
    let up = t.nodes[leaf as int].parent.unwrap();
    if leaf < last {
        let steps = PruneSteps::of(t, leaf);
        assert(has_valid_parent(t.nodes, last as int));
        assert(ranks_below_parent(t.nodes, rank, last as int));
        assert(has_valid_children(t.nodes, last as int));
        assert(steps.shrunk[leaf as int] == steps.unlinked[last as int]);
        let q = t.nodes[last as int].parent.unwrap();
        assert(steps.shrunk[leaf as int].parent == Some(q));
        assert(has_valid_children(t.nodes, q as int));
        assert(q != leaf);
        assert(steps.kids == steps.unlinked[last as int].children);
        lemma_without_members(t.nodes[last as int].children, leaf);
        assert forall|a: int| 0 <= a < steps.kids.len() implies (#[trigger] steps.kids[a]) < n
            - 1 by {
            let c = steps.kids[a];
            assert(steps.kids.contains(c));
            assert(t.nodes[last as int].children.contains(c));
            let b = choose|b: int|
                0 <= b < t.nodes[last as int].children.len() && t.nodes[last as int].children[b]
                    == c;
            assert(t.nodes[last as int].children[b] < n);
            assert(ranks_below_parent(t.nodes, rank, c as int));
        }
    }
}

/// The steps of taking out a leaf end in the pruned tree.
pub proof fn lemma_prune_steps(t: TreeView, leaf: usize)
    requires
        t.well_formed(),
        t.is_leaf(leaf),
    ensures
        PruneSteps::of(t, leaf).settled == t.pruned(leaf).nodes,
{
    let s0 = t.nodes;
    let n = s0.len();
    let last = (n - 1) as usize;
    let rank = choose|rank: Seq<nat>| ranked(s0, rank);
    let steps = PruneSteps::of(t, leaf);
    let goal = t.pruned(leaf).nodes;
    lemma_prune_facts(t, leaf);
    let up = s0[leaf as int].parent.unwrap();
    assert forall|j: int| 0 <= j < last implies steps.settled[j] == goal[j] by {
        lemma_prune_node(t, leaf, j);
    }
    assert(steps.settled =~= goal);
}

/// The steps of taking out a leaf give slot `j` the node of the pruned tree.
proof fn lemma_prune_node(t: TreeView, leaf: usize, j: int)
    requires
        t.well_formed(),
        t.is_leaf(leaf),
        0 <= j < t.nodes.len() - 1,
    ensures
        PruneSteps::of(t, leaf).settled[j] == t.pruned(leaf).nodes[j],
{
    let s0 = t.nodes;
    let n = s0.len();
    let last = (n - 1) as usize;
    let rank = choose|rank: Seq<nat>| ranked(s0, rank);
    let steps = PruneSteps::of(t, leaf);
    lemma_prune_facts(t, leaf);
    let up = s0[leaf as int].parent.unwrap();
    let src = source(j, leaf, last);
    assert(has_valid_children(s0, src));
    if src > 0 {
        assert(has_valid_parent(s0, src));
    }
    // The children of the node.
    if src != up {
        if s0[src].children.contains(leaf) {
            let a = choose|a: int| 0 <= a < s0[src].children.len() && s0[src].children[a] == leaf;
            assert(s0[s0[src].children[a] as int].parent == Some(src as usize));
        }
        lemma_without_absent(s0[src].children, leaf);
    }
    lemma_without_members(s0[src].children, leaf);
    let rest = without(s0[src].children, leaf);
    assert(steps.unlinked[src].children == rest);
    assert(steps.shrunk[j].children == rest);
    assert(steps.shrunk[j].parent == s0[src].parent);
    if leaf < last {
        assert(has_valid_parent(s0, last as int));
        let q = s0[last as int].parent.unwrap();
        assert(steps.shrunk[leaf as int] == steps.unlinked[last as int]);
        assert(steps.shrunk[leaf as int].parent == Some(q));
        if j != q {
            if rest.contains(last) {
                assert(s0[src].children.contains(last));
                let a = choose|a: int|
                    0 <= a < s0[src].children.len() && s0[src].children[a] == last;
                assert(s0[s0[src].children[a] as int].parent == Some(src as usize));
            }
            lemma_renamed_absent(rest, last, leaf);
        }
        assert(steps.patched[j].children == relinked(s0[src].children, leaf, last));
        assert(steps.patched[j].parent == s0[src].parent);
        // The parent of the node.
        assert(steps.kids == steps.unlinked[last as int].children);
        lemma_without_members(s0[last as int].children, leaf);
        if s0[src].parent == Some(last) {
            assert(s0[last as int].children.contains(src as usize));
            assert(src != last) by {
                assert(ranks_below_parent(s0, rank, src));
            }
            assert(src == j);
            if up == last {
                assert(has_valid_children(s0, last as int));
                lemma_without_keeps(s0[last as int].children, leaf, src as usize);
            }
            assert(steps.kids.contains(j as usize));
        } else {
            if steps.kids.contains(j as usize) {
                assert(s0[last as int].children.contains(j as usize));
                assert(has_valid_children(s0, last as int));
                let a = choose|a: int|
                    0 <= a < s0[last as int].children.len() && s0[last as int].children[a]
                        == j as usize;
                assert(s0[s0[last as int].children[a] as int].parent == Some(last));
                assert(j != leaf);
            }
        }
    } else {
        assert(renamed(rest, last, leaf) =~= rest);
    }
}

} // verus!
