use toru::error::ToruError;
use toru::task::Task;
use toru::tree::{add, ascend, complete, delete, descend, Tree};

fn spawn_tree() -> Tree {
    let mut tree = Tree::new();
    tree = add(tree, Task::new().set_parent(0));
    tree = add(tree, Task::new().set_parent(0));
    tree.set_ptr(1);
    tree = add(tree, Task::new().set_parent(1));
    tree = add(tree, Task::new().set_parent(1));
    tree.set_ptr(2);
    tree = add(tree, Task::new().set_parent(2));
    tree = add(tree, Task::new().set_parent(2));
    tree.set_ptr(3);
    tree = add(tree, Task::new().set_parent(3));
    tree = add(tree, Task::new().set_parent(3));
    tree.set_ptr(4);
    tree = add(tree, Task::new().set_parent(4));

    tree
}

fn named(name: &str) -> Task {
    Task::new().set_name(name.to_string())
}

/// The names of the nodes, sorted.
fn names(tree: &Tree) -> Vec<String> {
    let mut all: Vec<String> = tree.tasks().iter().map(|t| t.name().clone()).collect();
    all.sort();
    all
}

/// The index of the node with this name.
fn find(tree: &Tree, name: &str) -> usize {
    tree.tasks().iter().position(|t| t.name() == name).unwrap()
}

/// The names of the children of the node with this name, in order.
fn children_of(tree: &Tree, name: &str) -> Vec<String> {
    let node = &tree.tasks()[find(tree, name)];
    node.children().iter().map(|&c| tree.tasks()[c].name().clone()).collect()
}

/// The name of the parent of the node with this name.
fn parent_of(tree: &Tree, name: &str) -> Option<String> {
    let node = &tree.tasks()[find(tree, name)];
    node.parent().map(|p| tree.tasks()[p].name().clone())
}

/// A tree with named nodes:
/// root -> a, b;  a -> c, d;  b -> e;  c -> f;  cursor on the root.
fn family() -> Tree {
    let mut tree = Tree::new();
    tree = add(tree, named("a"));
    tree = add(tree, named("b"));
    tree.set_ptr(1);
    tree = add(tree, named("c"));
    tree = add(tree, named("d"));
    tree.set_ptr(2);
    tree = add(tree, named("e"));
    tree.set_ptr(3);
    tree = add(tree, named("f"));
    tree.set_ptr(0);
    tree
}

#[test]
fn multi_level_delete() {
    let mut tree = spawn_tree();
    tree = delete(tree, 1);

    assert_eq!(tree.tasks().len(), 4);
}

#[test]
fn single_level_delete() {
    let mut tree = spawn_tree();
    tree = delete(tree, 9);

    assert_eq!(tree.tasks().len(), 9);
}

#[test]
fn multi_level_complete() {
    let mut tree = spawn_tree();
    tree.set_ptr(1);

    tree = complete(tree, 1);
    assert!(tree.pending_children().next().is_none());
}

#[test]
fn fresh_tree_holds_the_root() {
    let tree = Tree::new();
    assert_eq!(tree.tasks().len(), 1);
    assert_eq!(tree.ptr(), 0);
    assert!(tree.at_root());
    assert_eq!(tree.tasks()[0].parent(), None);
    assert_eq!(tree.tasks()[0].name(), "Root");
    assert!(tree.is_well_formed());
}

#[test]
fn add_appends_under_the_cursor() {
    let tree = add(Tree::new(), named("Buy milk"));
    assert_eq!(tree.tasks().len(), 2);
    assert_eq!(tree.tasks()[1].parent(), Some(0));
    assert_eq!(tree.tasks()[1].name(), "Buy milk");
    assert_eq!(tree.tasks()[0].children(), &vec![1]);
    assert_eq!(tree.ptr(), 0);
    assert!(tree.is_well_formed());
}

#[test]
fn add_overwrites_the_parent_of_the_task() {
    let mut tree = add(Tree::new(), named("a"));
    tree.set_ptr(1);
    tree = add(tree, named("b").set_parent(0));
    assert_eq!(tree.tasks()[2].parent(), Some(1));
    assert_eq!(tree.tasks()[1].children(), &vec![2]);
    assert_eq!(tree.tasks()[0].children(), &vec![1]);
}

#[test]
fn descend_then_ascend() {
    let mut tree = add(Tree::new(), named("Buy milk"));
    tree = descend(tree, 1);
    assert_eq!(tree.ptr(), 1);
    assert!(!tree.at_root());
    tree = ascend(tree);
    assert_eq!(tree.ptr(), 0);
}

#[test]
fn ascend_on_the_root_stays() {
    let tree = ascend(family());
    assert_eq!(tree.ptr(), 0);
}

#[test]
fn descend_needs_a_child_of_the_cursor() {
    let mut tree = family();
    // Node 3 is a grandchild of the root, node 40 does not exist.
    tree = descend(tree, 3);
    assert_eq!(tree.ptr(), 0);
    tree = descend(tree, 40);
    assert_eq!(tree.ptr(), 0);
    tree = descend(tree, 0);
    assert_eq!(tree.ptr(), 0);
    tree = descend(tree, 2);
    assert_eq!(tree.ptr(), 2);
}

#[test]
fn delete_on_the_fixture_leaves_the_other_branch() {
    let mut tree = spawn_tree();
    tree = delete(tree, 1);
    assert_eq!(tree.tasks().len(), 4);
    assert!(tree.is_well_formed());
    // The root keeps one child, which keeps its two children.
    assert_eq!(tree.tasks()[0].children().len(), 1);
    let other = tree.tasks()[0].children()[0];
    assert_eq!(tree.tasks()[other].children().len(), 2);
    assert_eq!(tree.tasks()[other].parent(), Some(0));
}

#[test]
fn delete_of_a_chain_leaves_the_root() {
    let mut tree = Tree::new();
    for i in 0..9 {
        tree = add(tree, named("link"));
        tree = descend(tree, i + 1);
    }
    assert_eq!(tree.tasks().len(), 10);
    assert_eq!(tree.ptr(), 9);
    tree = delete(tree, 1);
    assert_eq!(tree.tasks().len(), 1);
    assert_eq!(tree.tasks()[0].children().len(), 0);
    // The cursor was in the deleted chain: it is on the parent of node 1.
    assert_eq!(tree.ptr(), 0);
    assert!(tree.is_well_formed());
}

#[test]
fn delete_of_the_root_changes_nothing() {
    let tree = delete(family(), 0);
    assert_eq!(tree.tasks().len(), 7);
    assert_eq!(names(&tree), vec!["Root", "a", "b", "c", "d", "e", "f"]);
}

#[test]
fn delete_of_a_missing_node_changes_nothing() {
    let tree = delete(family(), 7);
    assert_eq!(tree.tasks().len(), 7);
    assert_eq!(tree.ptr(), 0);
    assert!(tree.is_well_formed());
}

#[test]
fn delete_removes_the_subtree_only() {
    // a, c, d, f go; Root, b, e stay.
    let tree = delete(family(), 1);
    assert_eq!(tree.tasks().len(), 3);
    assert_eq!(names(&tree), vec!["Root", "b", "e"]);
    assert!(tree.is_well_formed());
    assert_eq!(find(&tree, "Root"), 0);
    assert_eq!(children_of(&tree, "Root"), vec!["b"]);
    assert_eq!(children_of(&tree, "b"), vec!["e"]);
    assert_eq!(parent_of(&tree, "e"), Some("b".to_string()));
    assert_eq!(parent_of(&tree, "b"), Some("Root".to_string()));
    assert_eq!(parent_of(&tree, "Root"), None);
}

#[test]
fn delete_keeps_the_order_of_the_children() {
    let mut tree = Tree::new();
    for name in ["a", "b", "c", "d"] {
        tree = add(tree, named(name));
    }
    tree = delete(tree, 2);
    assert_eq!(children_of(&tree, "Root"), vec!["a", "c", "d"]);
    tree = delete(tree, 1);
    assert_eq!(children_of(&tree, "Root"), vec!["c", "d"]);
    assert!(tree.is_well_formed());
}

#[test]
fn delete_of_the_last_node_with_children() {
    // root -> a, b;  b -> c.  Then a is deleted, so b moves into slot 1
    // and its child has to follow.
    let mut tree = Tree::new();
    tree = add(tree, named("a"));
    tree = add(tree, named("b"));
    tree.set_ptr(2);
    tree = add(tree, named("c"));
    tree.set_ptr(0);
    // Delete c first, so that b is the last node and has no children left,
    // and add two children to it again.
    tree = delete(tree, 3);
    tree.set_ptr(2);
    tree = add(tree, named("d"));
    tree = add(tree, named("e"));
    tree.set_ptr(0);
    // b is node 2 with children 3 and 4; deleting b itself must remove all.
    tree = delete(tree, 2);
    assert_eq!(names(&tree), vec!["Root", "a"]);
    assert!(tree.is_well_formed());
}

#[test]
fn delete_moves_a_node_with_children() {
    // root -> a, b, c;  c -> d.  Deleting b moves d into slot 2; deleting a
    // then moves c, whose child d has to learn the new index of its parent.
    let mut tree = Tree::new();
    tree = add(tree, named("a"));
    tree = add(tree, named("b"));
    tree = add(tree, named("c"));
    tree.set_ptr(3);
    tree = add(tree, named("d"));
    tree.set_ptr(0);
    tree = delete(tree, 2);
    assert!(tree.is_well_formed());
    assert_eq!(children_of(&tree, "c"), vec!["d"]);
    tree = delete(tree, 1);
    assert!(tree.is_well_formed());
    assert_eq!(names(&tree), vec!["Root", "c", "d"]);
    assert_eq!(children_of(&tree, "Root"), vec!["c"]);
    assert_eq!(children_of(&tree, "c"), vec!["d"]);
    assert_eq!(parent_of(&tree, "d"), Some("c".to_string()));
}

#[test]
fn delete_when_the_subtree_root_is_the_last_node() {
    // root -> a;  a -> b.  b is node 2 and a is node 1; after a second child
    // x of the root is deleted, a chain root -> a -> b is left in which
    // deleting from the top has to go through a node that moves.
    let mut tree = Tree::new();
    tree = add(tree, named("x"));
    tree = add(tree, named("a"));
    tree.set_ptr(2);
    tree = add(tree, named("b"));
    tree.set_ptr(3);
    tree = add(tree, named("c"));
    tree.set_ptr(0);
    // Node 2 is a, with the chain a -> b -> c under it.
    tree = delete(tree, 2);
    assert_eq!(names(&tree), vec!["Root", "x"]);
    assert!(tree.is_well_formed());
}

#[test]
fn delete_follows_the_subtree_root_when_it_moves() {
    // root -> a, b, c;  c -> d.  Deleting a moves d into slot 1, so that c,
    // the last node, has a child before it. Deleting c then removes d
    // first, and c itself moves into the slot of d before it is removed.
    let mut tree = Tree::new();
    tree = add(tree, named("a"));
    tree = add(tree, named("b"));
    tree = add(tree, named("c"));
    tree.set_ptr(3);
    tree = add(tree, named("d"));
    tree.set_ptr(0);
    tree = delete(tree, 1);
    assert_eq!(find(&tree, "c"), 3);
    assert_eq!(find(&tree, "d"), 1);
    tree = delete(tree, 3);
    assert_eq!(names(&tree), vec!["Root", "b"]);
    assert_eq!(children_of(&tree, "Root"), vec!["b"]);
    assert!(tree.is_well_formed());
}

#[test]
fn delete_follows_the_cursor() {
    // The cursor is on e, the last node; deleting a frees slots into which
    // the later nodes move, and the cursor stays on e.
    let mut tree = family();
    tree.set_ptr(5);
    assert_eq!(tree.current().name(), "e");
    tree = delete(tree, 1);
    assert_eq!(tree.current().name(), "e");
    assert!(tree.is_well_formed());
}

#[test]
fn delete_puts_a_lost_cursor_on_the_parent() {
    // The cursor is on f, deep inside the subtree of a.
    let mut tree = family();
    tree.set_ptr(6);
    assert_eq!(tree.current().name(), "f");
    tree = delete(tree, 3);
    // c and f are gone; the cursor is on a, the parent of c.
    assert_eq!(tree.current().name(), "a");
    assert_eq!(names(&tree), vec!["Root", "a", "b", "d", "e"]);
    assert!(tree.is_well_formed());
}

#[test]
fn complete_marks_the_whole_subtree() {
    let tree = complete(family(), 1);
    for name in ["a", "c", "d", "f"] {
        assert!(tree.tasks()[find(&tree, name)].is_complete(), "{}", name);
    }
    for name in ["Root", "b", "e"] {
        assert!(!tree.tasks()[find(&tree, name)].is_complete(), "{}", name);
    }
    assert_eq!(tree.tasks().len(), 7);
    assert_eq!(tree.ptr(), 0);
    assert!(tree.is_well_formed());
}

#[test]
fn complete_of_the_root_changes_nothing() {
    let tree = complete(family(), 0);
    for task in tree.tasks() {
        assert!(!task.is_complete());
    }
}

#[test]
fn complete_hides_the_child_from_its_parent() {
    let mut tree = family();
    tree = complete(tree, 1);
    let mut pending = tree.pending_children();
    assert_eq!(pending.next().unwrap().name(), "b");
    assert!(pending.next().is_none());
    // No node lists node 1 among its pending children.
    for at in 0..tree.tasks().len() {
        tree.set_ptr(at);
        let mut pending = tree.pending_children();
        while let Some(task) = pending.next() {
            assert_ne!(task.name(), "a");
        }
    }
}

#[test]
fn complete_one_of_two_children() {
    let mut tree = family();
    tree.set_ptr(1);
    tree = complete(tree, 3);
    let mut pending = tree.pending_children();
    assert_eq!(pending.next().unwrap().name(), "d");
    assert!(pending.next().is_none());
    assert_eq!(tree.nth_child(0).unwrap(), 4);
}

#[test]
fn complete_stays_complete() {
    let mut tree = family();
    tree = complete(tree, 3);
    tree = complete(tree, 1);
    tree = complete(tree, 3);
    assert!(tree.tasks()[3].is_complete());
    assert!(tree.tasks()[6].is_complete());
}

#[test]
fn nth_child_counts_pending_children_only() {
    let mut tree = Tree::new();
    for name in ["a", "b", "c"] {
        tree = add(tree, named(name));
    }
    assert_eq!(tree.nth_child(0).unwrap(), 1);
    assert_eq!(tree.nth_child(1).unwrap(), 2);
    assert_eq!(tree.nth_child(2).unwrap(), 3);
    tree = complete(tree, 2);
    assert_eq!(tree.nth_child(0).unwrap(), 1);
    assert_eq!(tree.nth_child(1).unwrap(), 3);
    assert_eq!(tree.nth_child(2), Err(ToruError::InvalidIndex(2)));
}

#[test]
fn nth_child_of_a_leaf_is_an_error() {
    let tree = Tree::new();
    assert_eq!(tree.nth_child(0), Err(ToruError::InvalidIndex(0)));
    assert_eq!(tree.nth_child(17), Err(ToruError::InvalidIndex(17)));
}

#[test]
fn added_task_resolves_at_the_end() {
    let mut tree = Tree::new();
    for name in ["a", "b", "c"] {
        tree = add(tree, named(name));
    }
    tree = complete(tree, 2);
    // Two pending children before; the new one is at position 2.
    let count = tree.tasks().len();
    tree = add(tree, named("new"));
    assert_eq!(tree.nth_child(2), Ok(count));
    let mut pending = tree.pending_children();
    assert_eq!(pending.next().unwrap().name(), "a");
    assert_eq!(pending.next().unwrap().name(), "c");
    assert_eq!(pending.next().unwrap().name(), "new");
    assert!(pending.next().is_none());
}

#[test]
fn added_complete_task_is_not_pending() {
    let mut tree = add(Tree::new(), named("a"));
    tree = add(tree, named("done").complete());
    assert_eq!(tree.nth_child(1), Err(ToruError::InvalidIndex(1)));
    assert_eq!(tree.tasks()[0].children(), &vec![1, 2]);
}

#[test]
fn children_walks_in_insertion_order() {
    let mut tree = family();
    tree = complete(tree, 1);
    let mut children = tree.children();
    assert_eq!(children.next().unwrap().name(), "a");
    assert_eq!(children.next().unwrap().name(), "b");
    assert!(children.next().is_none());
    assert!(children.next().is_none());
}

#[test]
fn children_of_walks_another_node() {
    let tree = family();
    let a = tree.task(1).unwrap();
    let mut children = tree.children_of(a);
    assert_eq!(children.next().unwrap().name(), "c");
    assert_eq!(children.next().unwrap().name(), "d");
    assert!(children.next().is_none());
}

#[test]
fn has_pending_looks_at_direct_children() {
    let mut tree = family();
    assert!(tree.has_pending(tree.task(1).unwrap()));
    assert!(!tree.has_pending(tree.task(4).unwrap()));
    tree = complete(tree, 3);
    tree = complete(tree, 4);
    assert!(!tree.has_pending(tree.task(1).unwrap()));
    assert!(tree.has_pending(tree.task(0).unwrap()));
}

#[test]
fn task_lookup() {
    let tree = family();
    assert_eq!(tree.task(2).unwrap().name(), "b");
    assert!(tree.task(7).is_none());
    assert_eq!(tree.task_owned(6).unwrap().name(), "f");
    assert!(tree.task_owned(100).is_none());
    assert_eq!(tree.current().name(), "Root");
    assert_eq!(tree.current_owned().children(), &vec![1, 2]);
}

#[test]
fn replace_task_and_current() {
    let mut tree = family();
    tree = tree.replace_task(2, named("other"));
    assert_eq!(tree.tasks()[2].name(), "other");
    assert_eq!(tree.tasks().len(), 7);
    tree.set_ptr(3);
    tree = tree.replace_current(named("third"));
    assert_eq!(tree.tasks()[3].name(), "third");
    assert_eq!(tree.ptr(), 3);
}

#[test]
fn tasks_can_be_changed_in_place() {
    let mut tree = family();
    tree.tasks_mut().push(named("loose"));
    assert_eq!(tree.tasks().len(), 8);
    assert_eq!(tree.tasks()[7].name(), "loose");
    assert_eq!(tree.ptr(), 0);
    // Nothing links the new node: this is no tree.
    assert!(!tree.is_well_formed());
    tree.tasks_mut().pop();
    assert!(tree.is_well_formed());
}

#[test]
fn well_formedness_is_checked() {
    let mut tree = family();
    assert!(tree.is_well_formed());
    tree.set_ptr(7);
    assert!(!tree.is_well_formed());
    tree.set_ptr(6);
    assert!(tree.is_well_formed());
    // A child that its parent does not list.
    let broken = tree.replace_task(6, named("f").set_parent(2));
    assert!(!broken.is_well_formed());
}

#[test]
fn ill_formed_arenas_are_told() {
    // No nodes at all.
    assert!(!Tree::from_parts(0, vec![]).is_well_formed());
    // A root with a parent.
    assert!(!Tree::from_parts(0, vec![Task::new().set_parent(0)]).is_well_formed());
    // A child index that is no node.
    assert!(!Tree::from_parts(0, vec![Task::new().add_child(1)]).is_well_formed());
    // A child listed twice.
    let twice = vec![Task::new().add_child(1).add_child(1), Task::new().set_parent(0)];
    assert!(!Tree::from_parts(0, twice).is_well_formed());
    // Two nodes that are each other's parent, away from the root.
    let ring = vec![
        Task::new(),
        Task::new().set_parent(2).add_child(2),
        Task::new().set_parent(1).add_child(1),
    ];
    assert!(!Tree::from_parts(0, ring).is_well_formed());
    // A node that is its own parent.
    let own = vec![Task::new(), Task::new().set_parent(1).add_child(1)];
    assert!(!Tree::from_parts(0, own).is_well_formed());
    // A node on its own, which the root does not reach.
    let apart = vec![Task::new(), Task::new()];
    assert!(!Tree::from_parts(0, apart).is_well_formed());
    // The root as a child.
    let back = vec![Task::new().add_child(1), Task::new().set_parent(0).add_child(0)];
    assert!(!Tree::from_parts(0, back).is_well_formed());
    // And one that is in order, with indices out of insertion order.
    let fine = vec![
        Task::new().add_child(2),
        Task::new().set_parent(2),
        Task::new().set_parent(0).add_child(1),
    ];
    assert!(Tree::from_parts(1, fine).is_well_formed());
}

/// A small generator of numbers that look random.
fn next_number(seed: &mut u64) -> usize {
    *seed = seed.wrapping_mul(6364136223846793005).wrapping_add(1442695040888963407);
    (*seed >> 33) as usize
}

/// Whether the node named `name` is the node named `top` or under it.
fn is_under(tree: &Tree, top: &str, name: &str) -> bool {
    let mut at = Some(name.to_string());
    while let Some(current) = at {
        if current == top {
            return true;
        }
        at = parent_of(tree, &current);
    }
    false
}

#[test]
fn delete_on_many_trees() {
    let mut seed: u64 = 7;
    for round in 0..200 {
        // A tree of up to 24 nodes, each under a node that was there before.
        let size = 2 + next_number(&mut seed) % 23;
        let mut tree = Tree::new();
        for i in 1..size {
            tree.set_ptr(next_number(&mut seed) % i);
            tree = add(tree, named(&format!("n{}", i)));
        }
        // Some deletions first, so that the indices are out of order.
        for _ in 0..next_number(&mut seed) % 3 {
            let at = next_number(&mut seed) % tree.tasks().len();
            tree = delete(tree, at);
        }
        tree.set_ptr(next_number(&mut seed) % tree.tasks().len());
        assert!(tree.is_well_formed(), "round {}", round);

        let idx = next_number(&mut seed) % (tree.tasks().len() + 1);
        let before = decode_copy(&tree);
        let cursor_name = before.current().name().clone();
        let tree = delete(tree, idx);
        assert!(tree.is_well_formed(), "round {}", round);
        if idx == 0 || idx >= before.tasks().len() {
            assert_eq!(names(&tree), names(&before));
            assert_eq!(tree.ptr(), before.ptr());
            continue;
        }
        let top = before.tasks()[idx].name().clone();
        let mut expected: Vec<String> = before
            .tasks()
            .iter()
            .map(|t| t.name().clone())
            .filter(|n| !is_under(&before, &top, n))
            .collect();
        expected.sort();
        assert_eq!(names(&tree), expected, "round {}", round);
        assert_eq!(tree.tasks()[0].name(), "Root");
        for name in &expected {
            // The same parent, and the same children but for the deleted
            // one, in the same order.
            assert_eq!(parent_of(&tree, name), parent_of(&before, name));
            let kept: Vec<String> =
                children_of(&before, name).into_iter().filter(|c| *c != top).collect();
            assert_eq!(children_of(&tree, name), kept);
            // No node has moved to a higher index.
            assert!(find(&tree, name) <= find(&before, name));
        }
        let expected_cursor = if is_under(&before, &top, &cursor_name) {
            parent_of(&before, &top).unwrap()
        } else {
            cursor_name
        };
        assert_eq!(tree.current().name(), &expected_cursor, "round {}", round);
    }
}

/// A copy of the tree.
fn decode_copy(tree: &Tree) -> Tree {
    Tree::from_parts(tree.ptr(), tree.tasks().clone())
}

#[test]
fn complete_on_many_trees() {
    let mut seed: u64 = 99;
    for round in 0..100 {
        let size = 2 + next_number(&mut seed) % 23;
        let mut tree = Tree::new();
        for i in 1..size {
            tree.set_ptr(next_number(&mut seed) % i);
            tree = add(tree, named(&format!("n{}", i)));
        }
        let first = next_number(&mut seed) % tree.tasks().len();
        tree = complete(tree, first);
        let before = decode_copy(&tree);
        let idx = next_number(&mut seed) % tree.tasks().len();
        let tree = complete(tree, idx);
        assert!(tree.is_well_formed(), "round {}", round);
        assert_eq!(tree.tasks().len(), before.tasks().len());
        let top = before.tasks()[idx].name().clone();
        for (at, task) in tree.tasks().iter().enumerate() {
            let was = &before.tasks()[at];
            assert_eq!(task.name(), was.name());
            assert_eq!(task.parent(), was.parent());
            assert_eq!(task.children(), was.children());
            let marked = idx != 0 && is_under(&before, &top, was.name());
            assert_eq!(task.is_complete(), was.is_complete() || marked, "round {}", round);
        }
    }
}
