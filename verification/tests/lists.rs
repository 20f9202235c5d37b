use toru::curses::{rebuild_list, StatefulList};
use toru::task::Task;
use toru::tree::{add, complete, Tree};
use toru::tui::{Key, List, Mode, Reply, Screen};

fn named(name: &str) -> Task {
    Task::new().set_name(name.to_string())
}

fn items(names: &[&str]) -> Vec<String> {
    names.iter().map(|n| n.to_string()).collect()
}

#[test]
fn list_moves_within_its_items() {
    let mut list = List::new("t".to_string(), items(&["a", "b", "c"]));
    assert_eq!(list.index(), 0);
    list.decrement();
    assert_eq!(list.index(), 0);
    list.increment();
    list.increment();
    assert_eq!(list.index(), 2);
    list.increment();
    assert_eq!(list.index(), 2);
    list.decrement();
    assert_eq!(list.index(), 1);
}

#[test]
fn empty_list_does_not_move() {
    let mut list = List::new("t".to_string(), vec![]);
    list.increment();
    assert_eq!(list.index(), 0);
    list.decrement();
    assert_eq!(list.index(), 0);
    assert_eq!(list.len(), 0);
    assert!(list.item(0).is_none());
    assert_eq!(list.to_string(), "t\r\n");
}

#[test]
fn list_as_text() {
    let mut list = List::new("Home".to_string(), items(&["a", "b"]));
    assert_eq!(list.to_string(), "Home\r\n1. > a\r\n2.   b\r\n");
    list.increment();
    assert_eq!(list.to_string(), "Home\r\n1.   a\r\n2. > b\r\n");
    assert_eq!(list.title(), "Home");
    assert_eq!(list.item(1).unwrap(), "b");
}

#[test]
fn list_is_rebuilt_from_the_tree() {
    let mut tree = Tree::new();
    for name in ["a", "b", "c"] {
        tree = add(tree, named(name));
    }
    let mut list = List::new("old".to_string(), items(&["x"; 5]));
    for _ in 0..4 {
        list.increment();
    }
    assert_eq!(list.index(), 4);
    list.rebuild(&tree);
    assert_eq!(list.title(), "Root");
    assert_eq!(list.len(), 3);
    assert_eq!(list.item(0).unwrap(), "a");
    assert_eq!(list.item(2).unwrap(), "c");
    // The selection goes to the last item.
    assert_eq!(list.index(), 2);
    tree = complete(tree, 2);
    tree = complete(tree, 3);
    list.rebuild(&tree);
    assert_eq!(list.len(), 1);
    assert_eq!(list.index(), 0);
    tree = complete(tree, 1);
    list.rebuild(&tree);
    assert_eq!(list.len(), 0);
    assert_eq!(list.index(), 0);
}

#[test]
fn selection_wraps_around() {
    let mut list = StatefulList::new(items(&["a", "b", "c"]));
    assert_eq!(list.selected(), Some(0));
    list.previous();
    assert_eq!(list.selected(), Some(2));
    list.next();
    assert_eq!(list.selected(), Some(0));
    list.next();
    assert_eq!(list.selected(), Some(1));
    list.next();
    list.next();
    assert_eq!(list.selected(), Some(0));
    list.previous();
    list.previous();
    assert_eq!(list.selected(), Some(1));
    assert_eq!(list.len(), 3);
    assert_eq!(list.item(1).unwrap(), "b");
    assert!(list.item(3).is_none());
}

#[test]
fn selection_of_a_single_item_stays() {
    let mut list = StatefulList::new(items(&["only"]));
    list.next();
    assert_eq!(list.selected(), Some(0));
    list.previous();
    assert_eq!(list.selected(), Some(0));
}

#[test]
fn stateful_list_is_built_from_the_tree() {
    let mut tree = Tree::new();
    for name in ["a", "b", "c"] {
        tree = add(tree, named(name));
    }
    tree.set_ptr(1);
    tree = add(tree, named("under a"));
    tree.set_ptr(0);
    tree = complete(tree, 2);
    let list = rebuild_list(&tree);
    assert_eq!(list.selected(), Some(0));
    assert_eq!(list.len(), 2);
    assert_eq!(list.item(0).unwrap(), "+ a");
    assert_eq!(list.item(1).unwrap(), "  c");
}

fn screen_with(names: &[&str]) -> (Screen, Tree) {
    let mut tree = Tree::new();
    for name in names {
        tree = add(tree, named(name));
    }
    (Screen::new(&tree), tree)
}

/// Types the characters of `text`.
fn type_text(screen: &mut Screen, mut tree: Tree, text: &str) -> Tree {
    for c in text.chars() {
        let (next, reply) = screen.press(Key::Char(c), tree);
        assert_eq!(reply, Reply::Typed(c));
        tree = next;
    }
    tree
}

#[test]
fn screen_starts_in_normal_mode() {
    let (screen, _tree) = screen_with(&["a", "b"]);
    assert_eq!(screen.mode(), Mode::Normal);
    assert_eq!(screen.list().title(), "Root");
    assert_eq!(screen.list().len(), 2);
    assert_eq!(screen.list().index(), 0);
    assert_eq!(screen.buffer(), "");
    assert_eq!(screen.cursor_offset(), 0);
}

#[test]
fn screen_moves_through_the_tree() {
    let (mut screen, tree) = screen_with(&["a", "b"]);
    let (tree, reply) = screen.press(Key::Down, tree);
    assert_eq!(reply, Reply::Redraw);
    assert_eq!(screen.list().index(), 1);
    let (tree, reply) = screen.press(Key::Char('l'), tree);
    assert_eq!(reply, Reply::Redraw);
    assert_eq!(tree.ptr(), 2);
    assert_eq!(screen.list().title(), "b");
    assert_eq!(screen.list().len(), 0);
    // There is nothing to go down to.
    let (tree, reply) = screen.press(Key::Right, tree);
    assert_eq!(reply, Reply::Nothing);
    assert_eq!(tree.ptr(), 2);
    let (tree, reply) = screen.press(Key::Char('h'), tree);
    assert_eq!(reply, Reply::Redraw);
    assert_eq!(tree.ptr(), 0);
    assert_eq!(screen.list().len(), 2);
    let (tree, _) = screen.press(Key::Right, tree);
    assert_eq!(tree.ptr(), 1);
    let (tree, _) = screen.press(Key::Char('~'), tree);
    assert_eq!(tree.ptr(), 0);
    let (tree, _) = screen.press(Key::Char('j'), tree);
    let (tree, _) = screen.press(Key::Char('k'), tree);
    let (tree, _) = screen.press(Key::Up, tree);
    assert_eq!(screen.list().index(), 0);
    let (tree, reply) = screen.press(Key::Char('x'), tree);
    assert_eq!(reply, Reply::Redraw);
    let (tree, reply) = screen.press(Key::Char('q'), tree);
    assert_eq!(reply, Reply::Quit);
    assert_eq!(tree.tasks().len(), 3);
}

#[test]
fn screen_deletes_the_selected_child() {
    let (mut screen, tree) = screen_with(&["a", "b", "c"]);
    let (tree, _) = screen.press(Key::Down, tree);
    let (tree, reply) = screen.press(Key::Char('d'), tree);
    assert_eq!(reply, Reply::Redraw);
    assert_eq!(tree.tasks().len(), 3);
    assert_eq!(screen.list().len(), 2);
    assert_eq!(screen.list().item(0).unwrap(), "a");
    assert_eq!(screen.list().item(1).unwrap(), "c");
    let (tree, _) = screen.press(Key::Char('d'), tree);
    let (tree, _) = screen.press(Key::Char('d'), tree);
    assert_eq!(tree.tasks().len(), 1);
    // With nothing left to delete the key does nothing.
    let (tree, reply) = screen.press(Key::Char('d'), tree);
    assert_eq!(reply, Reply::Nothing);
    assert_eq!(tree.tasks().len(), 1);
}

#[test]
fn screen_adds_what_is_typed() {
    let (mut screen, tree) = screen_with(&["a"]);
    let (tree, reply) = screen.press(Key::Char('i'), tree);
    assert_eq!(reply, Reply::OpenInput);
    assert_eq!(screen.mode(), Mode::Input);
    let tree = type_text(&mut screen, tree, "Buy milk");
    assert_eq!(screen.buffer(), "Buy milk");
    let (tree, reply) = screen.press(Key::Char('\n'), tree);
    assert_eq!(reply, Reply::CloseInput);
    assert_eq!(screen.mode(), Mode::Normal);
    assert_eq!(screen.buffer(), "");
    assert_eq!(tree.tasks().len(), 3);
    assert_eq!(tree.tasks()[2].name(), "Buy milk");
    assert_eq!(tree.tasks()[2].parent(), Some(0));
    assert_eq!(screen.list().len(), 2);
    assert_eq!(screen.list().item(1).unwrap(), "Buy milk");
}

#[test]
fn screen_edits_what_is_typed() {
    let (mut screen, tree) = screen_with(&[]);
    let (tree, _) = screen.press(Key::Char('i'), tree);
    let tree = type_text(&mut screen, tree, "abcd");
    // Nothing stands behind the cursor yet.
    let (tree, reply) = screen.press(Key::Delete, tree);
    assert_eq!(reply, Reply::Nothing);
    let (tree, reply) = screen.press(Key::Right, tree);
    assert_eq!(reply, Reply::Nothing);
    let (tree, reply) = screen.press(Key::Left, tree);
    assert_eq!(reply, Reply::CursorLeft);
    let (tree, reply) = screen.press(Key::Ctrl('b'), tree);
    assert_eq!(reply, Reply::CursorLeft);
    assert_eq!(screen.cursor_offset(), 2);
    // The cursor stands before "cd": backspace takes the b.
    let (tree, reply) = screen.press(Key::Backspace, tree);
    assert_eq!(reply, Reply::Rewrite { from: 1, step_back: true });
    assert_eq!(screen.buffer(), "acd");
    assert_eq!(screen.cursor_offset(), 2);
    // Delete takes the c.
    let (tree, reply) = screen.press(Key::Delete, tree);
    assert_eq!(reply, Reply::Rewrite { from: 1, step_back: false });
    assert_eq!(screen.buffer(), "ad");
    assert_eq!(screen.cursor_offset(), 1);
    let (tree, reply) = screen.press(Key::Ctrl('f'), tree);
    assert_eq!(reply, Reply::CursorRight);
    assert_eq!(screen.cursor_offset(), 0);
    let (tree, _) = screen.press(Key::Ctrl('h'), tree);
    let (tree, _) = screen.press(Key::Ctrl('h'), tree);
    assert_eq!(screen.buffer(), "");
    let (tree, reply) = screen.press(Key::Backspace, tree);
    assert_eq!(reply, Reply::Nothing);
    let (tree, reply) = screen.press(Key::Left, tree);
    assert_eq!(reply, Reply::Nothing);
    let (tree, reply) = screen.press(Key::Up, tree);
    assert_eq!(reply, Reply::Nothing);
    assert_eq!(tree.tasks().len(), 1);
}

#[test]
fn screen_gives_up_on_escape() {
    let (mut screen, tree) = screen_with(&["a"]);
    let (tree, _) = screen.press(Key::Char('i'), tree);
    let tree = type_text(&mut screen, tree, "xy");
    let (tree, _) = screen.press(Key::Left, tree);
    let (tree, reply) = screen.press(Key::Esc, tree);
    assert_eq!(reply, Reply::CloseInput);
    assert_eq!(screen.mode(), Mode::Normal);
    assert_eq!(screen.buffer(), "");
    assert_eq!(screen.cursor_offset(), 0);
    assert_eq!(tree.tasks().len(), 2);
    // Control and j adds a task as the return key does.
    let (tree, _) = screen.press(Key::Char('i'), tree);
    let tree = type_text(&mut screen, tree, "q");
    let (tree, reply) = screen.press(Key::Ctrl('j'), tree);
    assert_eq!(reply, Reply::CloseInput);
    assert_eq!(tree.tasks()[2].name(), "q");
}
