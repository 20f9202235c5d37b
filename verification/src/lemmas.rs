//! Facts about well-formed trees that the operations rest on.

use crate::model::{
    ancestor, has_valid_children, has_valid_parent, linked, pending, ranked, ranks_below_parent,
    under, TreeView,
};
use crate::task::TaskView;
use vstd::prelude::*;

verus! {

/// A list of distinct numbers below `n` has at most `n` entries.
pub proof fn lemma_distinct_bounded(s: Seq<usize>, n: nat)
    requires
        s.no_duplicates(),
        forall|k: int| 0 <= k < s.len() ==> (#[trigger] s[k]) < n,
    ensures
        s.len() <= n,
    decreases n,
{
    if n == 0 {
        if s.len() > 0 {
            assert(s[0] < n);
        }
    } else if exists|k: int| 0 <= k < s.len() && s[k] == n - 1 {
        let k = choose|k: int| 0 <= k < s.len() && s[k] == n - 1;
        let rest = s.remove(k);
        assert forall|a: int| 0 <= a < rest.len() implies (#[trigger] rest[a]) < n - 1 by {
            let b = if a < k { a } else { a + 1 };
            assert(rest[a] == s[b]);
            assert(s[b] < n);
            assert(b != k);
        }
        assert(rest.no_duplicates()) by {
            assert forall|a: int, b: int| 0 <= a < rest.len() && 0 <= b < rest.len() && a != b
                implies rest[a] != rest[b] by {
                let a2 = if a < k { a } else { a + 1 };
                let b2 = if b < k { b } else { b + 1 };
                assert(rest[a] == s[a2] && rest[b] == s[b2]);
            }
        }
        lemma_distinct_bounded(rest, (n - 1) as nat);
    } else {
        assert forall|a: int| 0 <= a < s.len() implies (#[trigger] s[a]) < n - 1 by {
            assert(s[a] < n);
        }
        lemma_distinct_bounded(s, (n - 1) as nat);
    }
}

/// A child of a node under `top` is under `top` too.
pub proof fn lemma_under_child(nodes: Seq<TaskView>, top: int, p: int, c: int)
    requires
        0 <= c < nodes.len(),
        nodes[c].parent == Some(p as usize),
        0 <= p <= usize::MAX,
        under(nodes, top, p),
    ensures
        under(nodes, top, c),
{
    let steps = choose|steps: nat| ancestor(nodes, p, steps) == top;
    assert(ancestor(nodes, c, steps + 1) == top);
}

/// The parent of a node under `top`, other than `top` itself, is under `top`.
pub proof fn lemma_under_parent(nodes: Seq<TaskView>, top: int, c: int)
    requires
        0 <= top,
        under(nodes, top, c),
        c != top,
    ensures
        0 <= c < nodes.len(),
        nodes[c].parent is Some,
        under(nodes, top, nodes[c].parent.unwrap() as int),
{
    let steps = choose|steps: nat| ancestor(nodes, c, steps) == top;
    assert(steps > 0);
    assert(ancestor(nodes, nodes[c].parent.unwrap() as int, (steps - 1) as nat) == top);
}

/// A set of nodes that holds `top` and, with each node, its children, holds
/// every node under `top`.
pub proof fn lemma_closed_under_children(
    nodes: Seq<TaskView>,
    held: Seq<usize>,
    top: int,
    i: int,
    steps: nat,
)
    requires
        linked(nodes),
        0 <= i < nodes.len(),
        0 <= top,
        ancestor(nodes, i, steps) == top,
        held.contains(top as usize),
        top <= usize::MAX,
        forall|j: int, t: int|
            0 <= j < held.len() && held[j] < nodes.len() && 0 <= t < nodes[held[j] as int].children.len()
                ==> held.contains(#[trigger] nodes[held[j] as int].children[t]),
    ensures
        held.contains(i as usize),
    decreases steps,
{
    if steps > 0 {
        let p = nodes[i].parent.unwrap() as int;
        assert(i != 0);
        assert(has_valid_parent(nodes, i));
        lemma_closed_under_children(nodes, held, top, p, (steps - 1) as nat);
        let j = choose|j: int| 0 <= j < held.len() && held[j] == p as usize;
        let t = choose|t: int| 0 <= t < nodes[p].children.len() && nodes[p].children[t] == i as usize;
        assert(held.contains(nodes[held[j] as int].children[t]));
    }
}

/// Links and ranks depend on the parents and children alone.
pub proof fn lemma_same_links(a: Seq<TaskView>, b: Seq<TaskView>)
    requires
        a.len() == b.len(),
        forall|i: int|
            0 <= i < a.len() ==> (#[trigger] a[i]).parent == b[i].parent && a[i].children
                == b[i].children,
    ensures
        linked(a) ==> linked(b),
        forall|rank: Seq<nat>| ranked(a, rank) ==> #[trigger] ranked(b, rank),
{
    if linked(a) {
        assert(a[0].parent == b[0].parent);
        assert forall|i: int| 0 < i < b.len() implies #[trigger] has_valid_parent(b, i) by {
            assert(has_valid_parent(a, i));
            assert(a[i].parent == b[i].parent);
            let p = a[i].parent.unwrap() as int;
            assert(a[p].children == b[p].children);
        }
        assert forall|p: int| 0 <= p < b.len() implies #[trigger] has_valid_children(b, p) by {
            assert(has_valid_children(a, p));
            assert(a[p].children == b[p].children);
            assert forall|k: int| 0 <= k < b[p].children.len() implies {
                &&& (#[trigger] b[p].children[k]) < b.len()
                &&& b[b[p].children[k] as int].parent == Some(p as usize)
            } by {
                let c = a[p].children[k] as int;
                assert(a[c].parent == b[c].parent);
            }
        }
    }
    assert forall|rank: Seq<nat>| ranked(a, rank) implies #[trigger] ranked(b, rank) by {
        assert forall|i: int| 0 <= i < b.len() implies #[trigger] ranks_below_parent(b, rank, i) by {
            assert(ranks_below_parent(a, rank, i));
            assert(a[i].parent == b[i].parent);
        }
    }
}

/// The pending ones of a list that ends in `c`.
pub proof fn lemma_pending_push(nodes: Seq<TaskView>, children: Seq<usize>, c: usize)
    ensures
        pending(nodes, children.push(c)) == if nodes[c as int].is_complete() {
            pending(nodes, children)
        } else {
            pending(nodes, children).push(c)
        },
{
    reveal(Seq::filter);
    assert(children.push(c).drop_last() =~= children);
}

/// The pending ones of a list that is not empty: the first child if it is
/// pending, then the pending ones of the rest.
pub proof fn lemma_pending_first(nodes: Seq<TaskView>, children: Seq<usize>)
    requires
        children.len() > 0,
    ensures
        pending(nodes, children) == if nodes[children[0] as int].is_complete() {
            pending(nodes, children.drop_first())
        } else {
            seq![children[0]] + pending(nodes, children.drop_first())
        },
    decreases children.len(),
{
    let rest = children.drop_first();
    if rest.len() == 0 {
        reveal(Seq::filter);
        assert(children.drop_last() =~= rest);
        assert(pending(nodes, rest) =~= Seq::<usize>::empty());
        assert(seq![children[0]] + Seq::<usize>::empty() =~= Seq::<usize>::empty().push(
            children[0],
        ));
    } else {
        let front = children.drop_last();
        let c = children.last();
        assert(front.push(c) =~= children);
        assert(rest.drop_last().push(c) =~= rest);
        assert(front.drop_first() =~= rest.drop_last());
        lemma_pending_push(nodes, front, c);
        lemma_pending_push(nodes, rest.drop_last(), c);
        lemma_pending_first(nodes, front);
        assert(front[0] == children[0]);
        if !nodes[c as int].is_complete() && !nodes[children[0] as int].is_complete() {
            assert((seq![children[0]] + pending(nodes, rest.drop_last())).push(c) =~= seq![
                children[0],
            ] + pending(nodes, rest.drop_last()).push(c));
        }
    }
}

/// The pending ones of a prefix are a prefix of the pending ones.
pub proof fn lemma_pending_prefix(nodes: Seq<TaskView>, children: Seq<usize>, n: int)
    requires
        0 <= n <= children.len(),
    ensures
        pending(nodes, children.take(n)).len() <= pending(nodes, children).len(),
        forall|k: int|
            0 <= k < pending(nodes, children.take(n)).len() ==> pending(nodes, children)[k]
                == pending(nodes, children.take(n))[k],
    decreases children.len() - n,
{
    if n < children.len() {
        assert(children.take(n + 1) =~= children.take(n).push(children[n]));
        lemma_pending_push(nodes, children.take(n), children[n]);
        lemma_pending_prefix(nodes, children, n + 1);
    } else {
        assert(children.take(n) =~= children);
    }
}

/// Every pending child is one of the children, and not complete.
pub proof fn lemma_pending_members(nodes: Seq<TaskView>, children: Seq<usize>)
    ensures
        forall|c: usize| #[trigger]
            pending(nodes, children).contains(c) ==> children.contains(c) && !nodes[c as int].is_complete(),
    decreases children.len(),
{
    reveal(Seq::filter);
    let w = pending(nodes, children);
    if children.len() > 0 {
        let front = children.drop_last();
        let wf = pending(nodes, front);
        lemma_pending_members(nodes, front);
        assert forall|k: int| 0 <= k < w.len() implies children.contains(w[k])
            && !nodes[w[k] as int].is_complete() by {
            if k < wf.len() {
                assert(w[k] == wf[k]);
                assert(wf.contains(wf[k]));
                assert(front.contains(wf[k]));
                let a = choose|a: int| 0 <= a < front.len() && front[a] == wf[k];
                assert(children[a] == wf[k]);
            } else {
                assert(w[k] == children.last());
                assert(children[children.len() - 1] == w[k]);
            }
        }
    }
    assert forall|c: usize| #[trigger] w.contains(c) implies children.contains(c)
        && !nodes[c as int].is_complete() by {
        let k = choose|k: int| 0 <= k < w.len() && w[k] == c;
        assert(children.contains(w[k]) && !nodes[w[k] as int].is_complete());
    }
}

/// A node has no more pending children than the tree has nodes.
pub proof fn lemma_pending_bounded(t: TreeView)
    requires
        t.well_formed(),
    ensures
        t.pending_children().len() <= t.nodes.len(),
{
    let children = t.current().children;
    assert(has_valid_children(t.nodes, t.cursor as int));
    lemma_distinct_bounded(children, t.nodes.len());
    lemma_pending_shorter(t.nodes, children);
}

/// The pending children are no more than the children.
pub proof fn lemma_pending_shorter(nodes: Seq<TaskView>, children: Seq<usize>)
    ensures
        pending(nodes, children).len() <= children.len(),
    decreases children.len(),
{
    reveal(Seq::filter);
    if children.len() > 0 {
        lemma_pending_shorter(nodes, children.drop_last());
    }
}

/// What a position among the pending children resolves to is a node of the
/// tree, and not the root.
pub proof fn lemma_nth_child_is_node(t: TreeView, idx: usize)
    requires
        t.well_formed(),
        t.nth_child(idx) is Ok,
    ensures
        0 < t.nth_child(idx).unwrap() < t.nodes.len(),
        t.current().children.contains(t.nth_child(idx).unwrap()),
{
    let child = t.nth_child(idx).unwrap();
    let shown = t.pending_children();
    lemma_pending_members(t.nodes, t.current().children);
    assert(shown.contains(shown[idx as int]));
    assert(has_valid_children(t.nodes, t.cursor as int));
    let k = choose|k: int|
        0 <= k < t.current().children.len() && t.current().children[k] == child;
    assert(t.current().children[k] < t.nodes.len());
    assert(t.nodes[child as int].parent is Some);
}

/// Which children are pending depends on their status alone.
pub proof fn lemma_pending_same(a: Seq<TaskView>, b: Seq<TaskView>, children: Seq<usize>)
    requires
        forall|k: int|
            0 <= k < children.len() ==> a[#[trigger] children[k] as int].status
                == b[children[k] as int].status,
    ensures
        pending(a, children) == pending(b, children),
    decreases children.len(),
{
    reveal(Seq::filter);
    if children.len() > 0 {
        let front = children.drop_last();
        assert forall|k: int| 0 <= k < front.len() implies a[#[trigger] front[k] as int].status
            == b[front[k] as int].status by {
            assert(front[k] == children[k]);
        }
        lemma_pending_same(a, b, front);
        assert(a[children[children.len() - 1] as int].status == b[children[children.len()
            - 1] as int].status);
    }
}

/// Adding a task without children keeps the tree well formed.
pub proof fn lemma_added_well_formed(t: TreeView, task: TaskView)
    requires
        t.well_formed(),
        task.children.len() == 0,
        t.nodes.len() < usize::MAX,
    ensures
        t.added(task).well_formed(),
{
    let n = t.nodes.len() as int;
    let at = t.cursor as int;
    let new = t.added(task).nodes;
    let rank = choose|rank: Seq<nat>| ranked(t.nodes, rank);
    let rank2 = Seq::new((n + 1) as nat, |j: int| if j < n { rank[j] + 1 } else { 0nat });
    assert(has_valid_children(t.nodes, at));
    assert forall|i: int| 0 < i < n + 1 implies #[trigger] has_valid_parent(new, i) by {
        if i < n {
            assert(has_valid_parent(t.nodes, i));
            let p = t.nodes[i].parent.unwrap() as int;
            let k = choose|k: int| 0 <= k < t.nodes[p].children.len() && t.nodes[p].children[k] == i as usize;
            assert(new[p].children[k] == i as usize);
        } else {
            assert(new[at].children[t.nodes[at].children.len() as int] == n as usize);
        }
    }
    assert forall|p: int| 0 <= p < n + 1 implies #[trigger] has_valid_children(new, p) by {
        if p < n {
            assert(has_valid_children(t.nodes, p));
        }
    }
    assert forall|i: int| 0 <= i < n + 1 implies #[trigger] ranks_below_parent(new, rank2, i) by {
        if i < n {
            assert(ranks_below_parent(t.nodes, rank, i));
            if i > 0 {
                assert(has_valid_parent(t.nodes, i));
            }
        }
    }
    assert(ranked(new, rank2));
}

/// A number that no rank exceeds.
pub open spec fn rank_bound(rank: Seq<nat>) -> nat
    decreases rank.len(),
{
    if rank.len() == 0 {
        0
    } else if rank.last() > rank_bound(rank.drop_last()) {
        rank.last()
    } else {
        rank_bound(rank.drop_last())
    }
}

/// No rank exceeds the bound.
pub proof fn lemma_rank_bound(rank: Seq<nat>, i: int)
    requires
        0 <= i < rank.len(),
    ensures
        rank[i] <= rank_bound(rank),
    decreases rank.len(),
{
    if i < rank.len() - 1 {
        lemma_rank_bound(rank.drop_last(), i);
    }
}

/// In a tree whose links agree and whose nodes are ranked, every node is
/// under the root.
pub proof fn lemma_reaches_root(nodes: Seq<TaskView>, rank: Seq<nat>, i: int)
    requires
        linked(nodes),
        ranked(nodes, rank),
        0 <= i < nodes.len(),
    ensures
        under(nodes, 0, i),
    decreases rank_bound(rank) - rank[i],
{
    if i == 0 {
        assert(ancestor(nodes, 0, 0) == 0);
    } else {
        assert(has_valid_parent(nodes, i));
        assert(ranks_below_parent(nodes, rank, i));
        let p = nodes[i].parent.unwrap() as int;
        lemma_rank_bound(rank, p);
        lemma_reaches_root(nodes, rank, p);
        lemma_under_child(nodes, 0, p, i);
    }
}

} // verus!
