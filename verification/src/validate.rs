//! Telling at run time whether a tree is well formed.

use crate::lemmas::{lemma_closed_under_children, lemma_distinct_bounded, lemma_reaches_root};
use crate::model::{
    ancestor, has_valid_children, has_valid_parent, linked, ranked, ranks_below_parent,
};
use crate::task::TaskView;
use crate::tree::{views, Tree};
use vstd::prelude::*;

verus! {

/// What a walk from the root has found so far. `queue` holds the nodes that
/// were reached, in the order in which they were reached; those before
/// `head` have had their children looked at. `from[k]` is the place in the
/// queue of the parent of `queue[k]`, and `depth` counts the links from the
/// root.
pub open spec fn walked(
    nodes: Seq<TaskView>,
    queue: Seq<usize>,
    seen: Seq<bool>,
    from: Seq<int>,
    depth: Seq<nat>,
    head: int,
) -> bool {
    &&& 0 < nodes.len() <= usize::MAX
    &&& nodes[0].parent is None
    &&& queue.len() >= 1
    &&& queue[0] == 0
    &&& queue.no_duplicates()
    &&& forall|k: int| 0 <= k < queue.len() ==> (#[trigger] queue[k]) < nodes.len()
    &&& seen.len() == nodes.len()
    &&& forall|i: int| 0 <= i < nodes.len() ==> (#[trigger] seen[i] <==> queue.contains(i as usize))
    &&& from.len() == queue.len()
    &&& depth.len() == nodes.len()
    &&& forall|k: int| 1 <= k < queue.len() ==> #[trigger] reached_from(nodes, queue, from, depth, k)
    &&& forall|k: int| 1 <= k < queue.len() ==> 0 <= #[trigger] from[k] <= head
    &&& forall|k: int| 0 <= k < queue.len() ==> depth[#[trigger] queue[k] as int] <= k
    &&& 0 <= head <= queue.len()
}

/// Entry `k` of the queue was reached as a child of entry `from[k]`.
pub open spec fn reached_from(
    nodes: Seq<TaskView>,
    queue: Seq<usize>,
    from: Seq<int>,
    depth: Seq<nat>,
    k: int,
) -> bool {
    &&& 0 <= from[k] < k
    &&& nodes[queue[k] as int].parent == Some(queue[from[k]])
    &&& nodes[queue[from[k]] as int].children.contains(queue[k])
    &&& depth[queue[k] as int] == depth[queue[from[k]] as int] + 1
}

/// The children of entry `j` of the queue are in order, and all of them are
/// in the queue.
pub open spec fn looked_at(nodes: Seq<TaskView>, queue: Seq<usize>, j: int) -> bool {
    &&& has_valid_children(nodes, queue[j] as int)
    &&& forall|t: int|
        0 <= t < nodes[queue[j] as int].children.len() ==> queue.contains(
            #[trigger] nodes[queue[j] as int].children[t],
        )
}

/// A walk that has reached every node and looked at all of them has found a
/// well-formed arena.
proof fn lemma_walk_complete(
    nodes: Seq<TaskView>,
    queue: Seq<usize>,
    seen: Seq<bool>,
    from: Seq<int>,
    depth: Seq<nat>,
)
    requires
        walked(nodes, queue, seen, from, depth, queue.len() as int),
        forall|j: int| 0 <= j < queue.len() ==> #[trigger] looked_at(nodes, queue, j),
        forall|i: int| 0 <= i < nodes.len() ==> #[trigger] seen[i],
    ensures
        linked(nodes),
        exists|rank: Seq<nat>| ranked(nodes, rank),
{
    let n = nodes.len();
    assert forall|i: int| 0 < i < n implies #[trigger] has_valid_parent(nodes, i) by {
        assert(seen[i]);
        let k = choose|k: int| 0 <= k < queue.len() && queue[k] == i as usize;
        assert(reached_from(nodes, queue, from, depth, k));
        assert(queue[from[k]] < n);
    }
    assert forall|p: int| 0 <= p < n implies #[trigger] has_valid_children(nodes, p) by {
        assert(seen[p]);
        let j = choose|j: int| 0 <= j < queue.len() && queue[j] == p as usize;
        assert(looked_at(nodes, queue, j));
    }
    let rank = Seq::new(n, |i: int| (n - depth[i]) as nat);
    assert forall|i: int| 0 <= i < n implies #[trigger] ranks_below_parent(nodes, rank, i) by {
        if i > 0 {
            assert(seen[i]);
            let k = choose|k: int| 0 <= k < queue.len() && queue[k] == i as usize;
            assert(reached_from(nodes, queue, from, depth, k));
            assert(depth[queue[k] as int] <= k);
            lemma_distinct_bounded(queue, n);
        }
    }
    assert(ranked(nodes, rank));
}

/// In a well-formed arena, a walk that has looked at every node it reached
/// has reached every node.
proof fn lemma_walk_reaches_all(nodes: Seq<TaskView>, queue: Seq<usize>, i: int)
    requires
        linked(nodes),
        exists|rank: Seq<nat>| ranked(nodes, rank),
        queue.len() >= 1,
        queue[0] == 0,
        forall|k: int| 0 <= k < queue.len() ==> (#[trigger] queue[k]) < nodes.len(),
        forall|j: int| 0 <= j < queue.len() ==> #[trigger] looked_at(nodes, queue, j),
        0 <= i < nodes.len(),
    ensures
        queue.contains(i as usize),
{
    let rank = choose|rank: Seq<nat>| ranked(nodes, rank);
    lemma_reaches_root(nodes, rank, i);
    let steps = choose|steps: nat| ancestor(nodes, i, steps) == 0;
    assert forall|j: int, t: int|
        0 <= j < queue.len() && queue[j] < nodes.len() && 0 <= t < nodes[queue[j] as int].children.len()
        implies queue.contains(#[trigger] nodes[queue[j] as int].children[t]) by {
        assert(looked_at(nodes, queue, j));
    }
    assert(queue[0] == 0usize);
    lemma_closed_under_children(nodes, queue, 0, i, steps);
}

impl Tree {
    /// Whether the tree is well formed: the links agree, every node hangs
    /// under the root, and the cursor is on a node.
    pub fn is_well_formed(&self) -> (r: bool)
        ensures
            r == self@.well_formed(),
    {
        let tasks = self.tasks();
        let ghost nodes = self@.nodes;
        let n: usize = tasks.len();
        assert(nodes.len() == n) by {
            assert(views(tasks@).len() == tasks@.len());
        }
        if n == 0 || self.ptr() >= n {
            return false;
        }
        assert(nodes[0] == tasks@[0]@);
        if tasks[0].parent().is_some() {
            return false;
        }
        let mut seen: Vec<bool> = Vec::new();
        let mut i: usize = 0;
        while i < n
            invariant
                i <= n,
                seen@.len() == i,
                forall|k: int| 0 <= k < i ==> !(#[trigger] seen@[k]),
            decreases n - i,
        {
            seen.push(false);
            i += 1;
        }
        seen.set(0, true);
        let mut queue: Vec<usize> = Vec::new();
        queue.push(0);
        let mut head: usize = 0;
        let ghost mut from: Seq<int> = seq![0int];
        let ghost mut depth: Seq<nat> = Seq::new(n as nat, |i: int| 0nat);
        proof {
            assert forall|i: int| 0 <= i < n implies (#[trigger] seen@[i] <==> queue@.contains(
                i as usize,
            )) by {
                if i == 0 {
                    assert(queue@[0] == 0usize);
                }
            }
        }
        while head < queue.len()
            invariant
                nodes == self@.nodes,
                nodes == views(tasks@),
                n == tasks@.len(),
                walked(nodes, queue@, seen@, from, depth, head as int),
                forall|k: int| 1 <= k < queue@.len() ==> (#[trigger] from[k]) < head,
                forall|j: int| 0 <= j < head ==> #[trigger] looked_at(nodes, queue@, j),
            decreases n - head,
        {
            proof {
                lemma_distinct_bounded(queue@, n as nat);
            }
            let x: usize = queue[head];
            assert(nodes[x as int] == tasks@[x as int]@);
            let kids = tasks[x].children();
            let ghost base = queue@;
            let mut t: usize = 0;
            while t < kids.len()
                invariant
                    nodes == self@.nodes,
                    nodes == views(tasks@),
                    n == tasks@.len(),
                    walked(nodes, queue@, seen@, from, depth, head as int),
                    head < base.len(),
                    x == base[head as int],
                    x < n,
                    kids@ == nodes[x as int].children,
                    t <= kids.len(),
                    queue@.len() == base.len() + t,
                    forall|k: int| 0 <= k < base.len() ==> (#[trigger] queue@[k]) == base[k],
                    forall|k: int| 0 <= k < t ==> (#[trigger] queue@[base.len() + k]) == kids@[k],
                    forall|k: int| 1 <= k < base.len() ==> (#[trigger] from[k]) < head,
                    forall|k: int| 0 <= k < t ==> nodes[(#[trigger] kids@[k]) as int].parent == Some(x),
                    forall|j: int| 0 <= j < head ==> #[trigger] looked_at(nodes, queue@, j),
                decreases kids.len() - t,
            {
                let c: usize = kids[t];
                if c >= n {
                    proof {
                        assert(!has_valid_children(nodes, x as int));
                    }
                    return false;
                }
                assert(nodes[c as int] == tasks@[c as int]@);
                let linked_back = match tasks[c].parent() {
                    Some(p) => p == x,
                    None => false,
                };
                if !linked_back {
                    proof {
                        assert(!has_valid_children(nodes, x as int));
                    }
                    return false;
                }
                if seen[c] {
                    proof {
                        let k = choose|k: int| 0 <= k < queue@.len() && queue@[k] == c;
                        assert(k != 0);
                        assert(reached_from(nodes, queue@, from, depth, k));
                        assert(queue@[from[k]] == queue@[head as int]);
                        assert(from[k] == head);
                        assert(k >= base.len());
                        assert(queue@[base.len() + (k - base.len())] == kids@[k - base.len()]);
                        assert(!has_valid_children(nodes, x as int));
                    }
                    return false;
                }
                let ghost old_queue = queue@;
                let ghost old_seen = seen@;
                let ghost old_from = from;
                let ghost old_depth = depth;
                seen.set(c, true);
                queue.push(c);
                proof {
                    assert(!old_queue.contains(c));
                    assert(nodes[x as int].children[t as int] == c);
                    from = from.push(head as int);
                    depth = depth.update(c as int, depth[x as int] + 1);
                    let q = queue@;
                    assert(q[head as int] == x);
                    assert(old_depth[old_queue[head as int] as int] <= head);
                    assert forall|k: int| 0 <= k < q.len() implies depth[#[trigger] q[k] as int]
                        <= k by {
                        if k < old_queue.len() {
                            assert(old_queue[k] == q[k]);
                            assert(old_queue.contains(old_queue[k]));
                            assert(old_depth[old_queue[k] as int] <= k);
                        }
                    }
                    assert forall|j: int| 0 <= j < head implies #[trigger] looked_at(
                        nodes,
                        q,
                        j,
                    ) by {
                        assert(looked_at(nodes, old_queue, j));
                        assert(q[j] == old_queue[j]);
                        assert forall|t: int|
                            0 <= t < nodes[q[j] as int].children.len() implies q.contains(
                            #[trigger] nodes[q[j] as int].children[t],
                        ) by {
                            let e = nodes[old_queue[j] as int].children[t];
                            assert(old_queue.contains(e));
                            let k = choose|k: int| 0 <= k < old_queue.len() && old_queue[k] == e;
                            assert(q[k] == e);
                        }
                    }
                    assert forall|i: int| 0 <= i < n implies (#[trigger] seen@[i] <==> q.contains(
                        i as usize,
                    )) by {
                        if i == c {
                            assert(q[q.len() - 1] == c);
                        } else if old_seen[i] {
                            let k = choose|k: int|
                                0 <= k < old_queue.len() && old_queue[k] == i as usize;
                            assert(q[k] == i as usize);
                        } else if q.contains(i as usize) {
                            let k = choose|k: int| 0 <= k < q.len() && q[k] == i as usize;
                            assert(old_queue[k] == i as usize);
                        }
                    }
                    assert forall|k: int| 1 <= k < q.len() implies #[trigger] reached_from(
                        nodes,
                        q,
                        from,
                        depth,
                        k,
                    ) by {
                        if k < old_queue.len() {
                            assert(reached_from(nodes, old_queue, old_from, old_depth, k));
                            assert(old_queue.contains(old_queue[k]));
                            assert(old_queue.contains(old_queue[old_from[k]]));
                            assert(q[k] == old_queue[k]);
                            assert(q[old_from[k]] == old_queue[old_from[k]]);
                        } else {
                            assert(q[k] == c);
                            assert(old_queue.contains(old_queue[head as int]));
                        }
                    }
                }
                t += 1;
            }
            proof {
                let q = queue@;
                assert(q[head as int] == x);
                assert forall|a: int, b: int|
                    0 <= a < kids@.len() && 0 <= b < kids@.len() && a != b implies kids@[a]
                    != kids@[b] by {
                    assert(q[base.len() + a] == kids@[a]);
                    assert(q[base.len() + b] == kids@[b]);
                }
                assert forall|t: int| 0 <= t < kids@.len() implies q.contains(
                    #[trigger] nodes[q[head as int] as int].children[t],
                ) && kids@[t] < n by {
                    assert(q[base.len() + t] == kids@[t]);
                }
                assert(has_valid_children(nodes, x as int));
                assert(looked_at(nodes, q, head as int));
            }
            head += 1;
        }
        let mut i: usize = 0;
        while i < n
            invariant
                i <= n,
                nodes == self@.nodes,
                n == nodes.len(),
                seen@.len() == n,
                walked(nodes, queue@, seen@, from, depth, queue@.len() as int),
                forall|j: int| 0 <= j < queue@.len() ==> #[trigger] looked_at(nodes, queue@, j),
                forall|k: int| 0 <= k < i ==> #[trigger] seen@[k],
            decreases n - i,
        {
            if !seen[i] {
                proof {
                    if self@.well_formed() {
                        lemma_walk_reaches_all(nodes, queue@, i as int);
                    }
                }
                return false;
            }
            i += 1;
        }
        proof {
            lemma_walk_complete(nodes, queue@, seen@, from, depth);
        }
        true
    }
}

} // verus!
