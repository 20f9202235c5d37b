//! The list that the full-screen front end shows: the current task as
//! title, its pending children as items, and one item selected.

use crate::deletion::deletion;
use crate::error::ToruError;
use crate::model::TreeView;
use crate::task::{Task, TaskView};
use crate::text::{decimal, decimal_string, text_of};
use crate::tree::{ascend, delete, descend, Tree};
use vstd::prelude::*;

verus! {

/// What the list holds, as a mathematical value.
pub ghost struct ListView {
    /// The position of the selected item.
    pub index: usize,
    pub title: Seq<char>,
    pub items: Seq<Seq<char>>,
}

/// The list on the screen.
#[derive(Debug)]
pub struct List {
    index: usize,
    title: String,
    items: Vec<String>,
}

impl View for List {
    type V = ListView;

    closed spec fn view(&self) -> ListView {
        ListView {
            index: self.index,
            title: self.title@,
            items: Seq::new(self.items@.len(), |i: int| self.items@[i]@),
        }
    }
}

/// The names of the pending children of the current node, in order.
pub open spec fn pending_names(tree: TreeView) -> Seq<Seq<char>> {
    Seq::new(
        tree.pending_children().len(),
        |k: int| tree.nodes[tree.pending_children()[k] as int].name,
    )
}

/// The position that stays selected when the list has `length` items: the
/// old one where it still exists, the last one otherwise.
pub open spec fn clamped(index: usize, length: nat) -> usize {
    if length == 0 {
        0
    } else if index >= length {
        (length - 1) as usize
    } else {
        index
    }
}

/// The row of the item at position `k`: its number, counted from 1, a `>`
/// where it is selected, and the item.
pub open spec fn row(list: ListView, k: int) -> Seq<char> {
    decimal((k + 1) as nat) + ". "@ + (if list.index == k {
        ">"@
    } else {
        " "@
    }) + " "@ + list.items[k] + "\r\n"@
}

/// The first `n` rows, one after the other.
pub open spec fn rows(list: ListView, n: nat) -> Seq<char>
    decreases n,
{
    if n == 0 {
        Seq::empty()
    } else {
        rows(list, (n - 1) as nat) + row(list, n - 1)
    }
}

impl ListView {
    /// The list as text: the title, then a row for each item.
    pub open spec fn text(self) -> Seq<char> {
        self.title + "\r\n"@ + rows(self, self.items.len())
    }
}

impl List {
    /// A list with the first item selected.
    pub fn new(title: String, items: Vec<String>) -> (r: Self)
        ensures
            r@.index == 0,
            r@.title == title@,
            r@.items == Seq::new(items@.len(), |i: int| items@[i]@),
    {
        List { index: 0, title, items }
    }

    /// The position of the selected item.
    pub fn index(&self) -> (r: usize)
        ensures
            r == self@.index,
    {
        self.index
    }

    /// The title of the list.
    pub fn title(&self) -> (r: &String)
        ensures
            r@ == self@.title,
    {
        &self.title
    }

    /// The number of items.
    pub fn len(&self) -> (r: usize)
        ensures
            r == self@.items.len(),
    {
        self.items.len()
    }

    /// The item at position `k`.
    pub fn item(&self, k: usize) -> (r: Option<&String>)
        ensures
            match r {
                Some(item) => k < self@.items.len() && item@ == self@.items[k as int],
                None => k >= self@.items.len(),
            },
    {
        if k < self.items.len() {
            Some(&self.items[k])
        } else {
            None
        }
    }

    /// Fills the list from the tree: the name of the current node as title,
    /// the names of its pending children as items. The selection stays where
    /// it is, or goes to the last item where the list has become shorter.
    pub fn rebuild(&mut self, tree: &Tree)
        requires
            tree@.well_formed(),
        ensures
            final(self)@ == (ListView {
                index: clamped(old(self)@.index, pending_names(tree@).len()),
                title: tree@.current().name,
                items: pending_names(tree@),
            }),
    {
        let title = tree.current().name().clone();
        let ghost shown = tree@.pending_children();
        let ghost nodes = tree@.nodes;
        let mut items: Vec<String> = Vec::new();
        let mut walk = tree.pending_children();
        loop
            invariant
                walk.well_formed(),
                walk.nodes() == nodes,
                shown == tree@.pending_children(),
                nodes == tree@.nodes,
                items@.len() <= shown.len(),
                walk.upcoming() == shown.skip(items@.len() as int),
                forall|k: int|
                    0 <= k < items@.len() ==> (#[trigger] items@[k])@ == nodes[shown[k] as int].name,
            ensures
                items@.len() == shown.len(),
                forall|k: int|
                    0 <= k < items@.len() ==> (#[trigger] items@[k])@ == nodes[shown[k] as int].name,
            decreases shown.len() - items@.len(),
        {
            let ghost at = items@.len() as int;
            match walk.next() {
                Some(task) => {
                    proof {
                        assert(shown.skip(at)[0] == shown[at]);
                        assert(shown.skip(at).drop_first() =~= shown.skip(at + 1));
                    }
                    items.push(task.name().clone());
                },
                None => {
                    break ;
                },
            }
        }
        let length: usize = items.len();
        if length == 0 {
            self.index = length;
        } else if self.index >= length {
            self.index = length - 1;
        }
        self.title = title;
        self.items = items;
        assert(final(self)@.items =~= pending_names(tree@));
    }

    /// Selects the next item, if there is one.
    pub fn increment(&mut self)
        ensures
            final(self)@ == (ListView {
                index: if old(self)@.index + 1 < old(self)@.items.len() {
                    (old(self)@.index + 1) as usize
                } else {
                    old(self)@.index
                },
                ..old(self)@
            }),
    {
        let length: usize = self.items.len();
        if 0 < length && self.index < length - 1 {
            self.index += 1;
        }
    }

    /// Selects the item before, if there is one.
    pub fn decrement(&mut self)
        ensures
            final(self)@ == (ListView {
                index: if old(self)@.index > 0 {
                    (old(self)@.index - 1) as usize
                } else {
                    0
                },
                ..old(self)@
            }),
    {
        if self.index > 0 {
            self.index -= 1;
        }
    }

    /// The list as text.
    pub fn to_string(&self) -> (r: String)
        ensures
            r@ == self@.text(),
    {
        let mut text = self.title.clone();
        text.append("\r\n");
        let mut k: usize = 0;
        while k < self.items.len()
            invariant
                k <= self.items@.len(),
                text@ == self@.title + "\r\n"@ + rows(self@, k as nat),
            decreases self.items@.len() - k,
        {
            let ghost before = text@;
            let number = decimal_string(k + 1);
            text.append(number.as_str());
            text.append(". ");
            text.append(if self.index == k {
                ">"
            } else {
                " "
            });
            text.append(" ");
            text.append(self.items[k].as_str());
            text.append("\r\n");
            proof {
                assert(text@ =~= before + row(self@, k as int));
                assert(text@ =~= self@.title + "\r\n"@ + rows(self@, (k + 1) as nat));
            }
            k += 1;
        }
        text
    }
}

/// A key, as the front end hears it.
#[derive(Clone, Copy, Debug, PartialEq, Eq, Structural)]
pub enum Key {
    Left,
    Right,
    Up,
    Down,
    Esc,
    Delete,
    Backspace,
    /// A character; the return key is the character `\n`.
    Char(char),
    /// A character typed while the control key is held.
    Ctrl(char),
    /// Any other key.
    Other,
}

/// What the keys mean at the moment: they move through the tree, or they
/// write the name of a new task.
#[derive(Clone, Copy, Debug, PartialEq, Eq, Structural)]
pub enum Mode {
    Normal,
    Input,
}

/// What the terminal is to show after a key.
#[derive(Clone, Copy, Debug, PartialEq, Eq, Structural)]
pub enum Reply {
    /// Nothing changes on the terminal.
    Nothing,
    /// The list is to be drawn anew.
    Redraw,
    /// The line for input is to be opened.
    OpenInput,
    /// The line for input is to be closed, and the list drawn anew.
    CloseInput,
    /// The cursor is to go one place to the left.
    CursorLeft,
    /// The cursor is to go one place to the right.
    CursorRight,
    /// The character is to be written at the cursor.
    Typed(char),
    /// A character has left the line: what is typed is to be written again
    /// from place `from` on, after a step to the left where `step_back`
    /// says so.
    Rewrite { from: usize, step_back: bool },
    /// The front end is to end.
    Quit,
}

/// What the screen holds, as a mathematical value.
pub ghost struct ScreenView {
    pub mode: Mode,
    pub list: ListView,
    /// What has been typed of the name of a new task.
    pub buffer: Seq<char>,
    /// How many characters the cursor stands before the end of the buffer.
    pub cursor_offset: usize,
}

/// The state of the full-screen front end.
#[derive(Debug)]
pub struct Screen {
    mode: Mode,
    list: List,
    buffer: Vec<char>,
    cursor_offset: usize,
}

impl View for Screen {
    type V = ScreenView;

    closed spec fn view(&self) -> ScreenView {
        ScreenView {
            mode: self.mode,
            list: self.list@,
            buffer: self.buffer@,
            cursor_offset: self.cursor_offset,
        }
    }
}

/// The list after it has been filled from `tree`.
pub open spec fn rebuilt(list: ListView, tree: TreeView) -> ListView {
    ListView {
        index: clamped(list.index, pending_names(tree).len()),
        title: tree.current().name,
        items: pending_names(tree),
    }
}

impl ScreenView {
    /// The cursor stands within what has been typed.
    pub open spec fn well_formed(self) -> bool {
        self.cursor_offset <= self.buffer.len()
    }

    /// The screen after `tree` has become the tree to show, in normal mode
    /// with nothing typed.
    pub open spec fn showing(self, tree: TreeView) -> ScreenView {
        ScreenView {
            mode: Mode::Normal,
            list: rebuilt(self.list, tree),
            buffer: Seq::empty(),
            cursor_offset: 0,
        }
    }

    /// The screen and the reply after a key that edits what is typed:
    /// moving the cursor, removing the character at or before it, or typing
    /// a character, which goes to the end of the line.
    pub open spec fn edited(self, key: Key) -> (ScreenView, Reply) {
        let len = self.buffer.len();
        let offset = self.cursor_offset;
        match key {
            Key::Delete => if offset > 0 {
                (
                    ScreenView {
                        buffer: self.buffer.remove(len - offset),
                        cursor_offset: (offset - 1) as usize,
                        ..self
                    },
                    Reply::Rewrite { from: (len - offset) as usize, step_back: false },
                )
            } else {
                (self, Reply::Nothing)
            },
            Key::Backspace | Key::Ctrl('h') => if offset < len {
                (
                    ScreenView { buffer: self.buffer.remove(len - offset - 1), ..self },
                    Reply::Rewrite { from: (len - offset - 1) as usize, step_back: true },
                )
            } else {
                (self, Reply::Nothing)
            },
            Key::Right | Key::Ctrl('f') => if offset > 0 {
                (ScreenView { cursor_offset: (offset - 1) as usize, ..self }, Reply::CursorRight)
            } else {
                (self, Reply::Nothing)
            },
            Key::Left | Key::Ctrl('b') => if offset < len {
                (ScreenView { cursor_offset: (offset + 1) as usize, ..self }, Reply::CursorLeft)
            } else {
                (self, Reply::Nothing)
            },
            Key::Char(c) => (ScreenView { buffer: self.buffer.push(c), ..self }, Reply::Typed(c)),
            _ => (self, Reply::Nothing),
        }
    }
}

/// Whether the key ends the input and adds the task.
pub open spec fn is_submit(key: Key) -> bool {
    key == Key::Char('\n') || key == Key::Ctrl('j')
}

/// The tree after a key in normal mode that moves the cursor of the tree:
/// up, to the root, or down to the selected child.
pub open spec fn navigated(tree: TreeView, index: usize, key: Key) -> TreeView {
    match key {
        Key::Left | Key::Char('h') => tree.ascended(),
        Key::Char('~') => TreeView { cursor: 0, ..tree },
        Key::Right | Key::Char('l') => match tree.nth_child(index) {
            Ok(child) => tree.descended(child),
            Err(_) => tree,
        },
        _ => tree,
    }
}

impl Screen {
    /// The screen for `tree`: the list of the current node, in normal mode.
    pub fn new(tree: &Tree) -> (r: Self)
        requires
            tree@.well_formed(),
        ensures
            r@.mode == Mode::Normal,
            r@.list == rebuilt(
                ListView { index: 0, title: Seq::empty(), items: Seq::empty() },
                tree@,
            ),
            r@.buffer == Seq::<char>::empty(),
            r@.cursor_offset == 0,
            r@.well_formed(),
    {
        let mut list = List::new(String::new(), Vec::new());
        assert(list@.items =~= Seq::empty());
        list.rebuild(tree);
        Screen { mode: Mode::Normal, list, buffer: Vec::new(), cursor_offset: 0 }
    }

    /// What the keys mean at the moment.
    pub fn mode(&self) -> (r: Mode)
        ensures
            r == self@.mode,
    {
        self.mode
    }

    /// The list that is shown.
    pub fn list(&self) -> (r: &List)
        ensures
            r@ == self@.list,
    {
        &self.list
    }

    /// What has been typed.
    pub fn buffer(&self) -> (r: String)
        ensures
            r@ == self@.buffer,
    {
        text_of(&self.buffer)
    }

    /// How many characters the cursor stands before the end of what is typed.
    pub fn cursor_offset(&self) -> (r: usize)
        ensures
            r == self@.cursor_offset,
    {
        self.cursor_offset
    }

    /// Reacts to a key, and says what the terminal is to show.
    ///
    /// In normal mode `h` or left goes up, `~` goes to the root, `l` or
    /// right goes down to the selected child, `k` or up and `j` or down move
    /// the selection, `d` deletes the selected child, `i` opens the line
    /// for input, and `q` ends the front end. In input mode the keys edit
    /// what is typed, escape gives up, and return adds a task of that name
    /// under the current node.
    pub fn press(&mut self, key: Key, tree: Tree) -> (r: (Tree, Reply))
        requires
            tree@.well_formed(),
            old(self)@.well_formed(),
        ensures
            r.0@.well_formed(),
            final(self)@.well_formed(),
            old(self)@.mode == Mode::Normal ==> match key {
                Key::Char('d') => match tree@.nth_child(old(self)@.list.index) {
                    Ok(child) => {
                        &&& exists|place: Seq<int>, slot: Seq<int>|
                            deletion(tree@, r.0@, child, place, slot)
                        &&& final(self)@ == (ScreenView {
                            list: rebuilt(old(self)@.list, r.0@),
                            ..old(self)@
                        })
                        &&& r.1 == Reply::Redraw
                    },
                    Err(_) => r.0@ == tree@ && final(self)@ == old(self)@ && r.1 == Reply::Nothing,
                },
                Key::Char('i') => r.0@ == tree@ && final(self)@ == (ScreenView {
                    mode: Mode::Input,
                    ..old(self)@
                }) && r.1 == Reply::OpenInput,
                Key::Char('q') => r.0@ == tree@ && final(self)@ == old(self)@ && r.1 == Reply::Quit,
                Key::Up | Key::Char('k') => r.0@ == tree@ && final(self)@ == (ScreenView {
                    list: ListView {
                        index: if old(self)@.list.index > 0 {
                            (old(self)@.list.index - 1) as usize
                        } else {
                            0
                        },
                        ..old(self)@.list
                    },
                    ..old(self)@
                }) && r.1 == Reply::Redraw,
                Key::Down | Key::Char('j') => r.0@ == tree@ && final(self)@ == (ScreenView {
                    list: ListView {
                        index: if old(self)@.list.index + 1 < old(self)@.list.items.len() {
                            (old(self)@.list.index + 1) as usize
                        } else {
                            old(self)@.list.index
                        },
                        ..old(self)@.list
                    },
                    ..old(self)@
                }) && r.1 == Reply::Redraw,
                Key::Right | Key::Char('l') => match tree@.nth_child(old(self)@.list.index) {
                    Ok(child) => r.0@ == tree@.descended(child) && final(self)@ == (ScreenView {
                        list: rebuilt(old(self)@.list, r.0@),
                        ..old(self)@
                    }) && r.1 == Reply::Redraw,
                    Err(_) => r.0@ == tree@ && final(self)@ == old(self)@ && r.1 == Reply::Nothing,
                },
                Key::Left | Key::Char('h') | Key::Char('~') => r.0@ == navigated(
                    tree@,
                    old(self)@.list.index,
                    key,
                ) && final(self)@ == (ScreenView {
                    list: rebuilt(old(self)@.list, r.0@),
                    ..old(self)@
                }) && r.1 == Reply::Redraw,
                _ => r.0@ == tree@ && final(self)@ == old(self)@ && r.1 == Reply::Redraw,
            },
            old(self)@.mode == Mode::Input ==> if key == Key::Esc {
                r.0@ == tree@ && final(self)@ == (ScreenView {
                    mode: Mode::Normal,
                    buffer: Seq::empty(),
                    cursor_offset: 0,
                    ..old(self)@
                }) && r.1 == Reply::CloseInput
            } else if is_submit(key) {
                r.0@ == tree@.added(TaskView { name: old(self)@.buffer, ..Task::new_view() })
                    && final(self)@ == old(self)@.showing(r.0@) && r.1 == Reply::CloseInput
            } else {
                r.0@ == tree@ && (final(self)@, r.1) == old(self)@.edited(key)
            },
    {
        match self.mode {
            Mode::Normal => self.press_normal(key, tree),
            Mode::Input => self.press_input(key, tree),
        }
    }

    fn press_normal(&mut self, key: Key, tree: Tree) -> (r: (Tree, Reply))
        requires
            tree@.well_formed(),
            old(self)@.well_formed(),
            old(self)@.mode == Mode::Normal,
        ensures
            r.0@.well_formed(),
            final(self)@.well_formed(),
            match key {
                Key::Char('d') => match tree@.nth_child(old(self)@.list.index) {
                    Ok(child) => {
                        &&& exists|place: Seq<int>, slot: Seq<int>|
                            deletion(tree@, r.0@, child, place, slot)
                        &&& final(self)@ == (ScreenView {
                            list: rebuilt(old(self)@.list, r.0@),
                            ..old(self)@
                        })
                        &&& r.1 == Reply::Redraw
                    },
                    Err(_) => r.0@ == tree@ && final(self)@ == old(self)@ && r.1 == Reply::Nothing,
                },
                Key::Char('i') => r.0@ == tree@ && final(self)@ == (ScreenView {
                    mode: Mode::Input,
                    ..old(self)@
                }) && r.1 == Reply::OpenInput,
                Key::Char('q') => r.0@ == tree@ && final(self)@ == old(self)@ && r.1 == Reply::Quit,
                Key::Up | Key::Char('k') => r.0@ == tree@ && final(self)@ == (ScreenView {
                    list: ListView {
                        index: if old(self)@.list.index > 0 {
                            (old(self)@.list.index - 1) as usize
                        } else {
                            0
                        },
                        ..old(self)@.list
                    },
                    ..old(self)@
                }) && r.1 == Reply::Redraw,
                Key::Down | Key::Char('j') => r.0@ == tree@ && final(self)@ == (ScreenView {
                    list: ListView {
                        index: if old(self)@.list.index + 1 < old(self)@.list.items.len() {
                            (old(self)@.list.index + 1) as usize
                        } else {
                            old(self)@.list.index
                        },
                        ..old(self)@.list
                    },
                    ..old(self)@
                }) && r.1 == Reply::Redraw,
                Key::Right | Key::Char('l') => match tree@.nth_child(old(self)@.list.index) {
                    Ok(child) => r.0@ == tree@.descended(child) && final(self)@ == (ScreenView {
                        list: rebuilt(old(self)@.list, r.0@),
                        ..old(self)@
                    }) && r.1 == Reply::Redraw,
                    Err(_) => r.0@ == tree@ && final(self)@ == old(self)@ && r.1 == Reply::Nothing,
                },
                Key::Left | Key::Char('h') | Key::Char('~') => r.0@ == navigated(
                    tree@,
                    old(self)@.list.index,
                    key,
                ) && final(self)@ == (ScreenView {
                    list: rebuilt(old(self)@.list, r.0@),
                    ..old(self)@
                }) && r.1 == Reply::Redraw,
                _ => r.0@ == tree@ && final(self)@ == old(self)@ && r.1 == Reply::Redraw,
            },
    {
        match key {
            Key::Left | Key::Char('h') => {
                let tree = ascend(tree);
                self.list.rebuild(&tree);
                (tree, Reply::Redraw)
            },
            Key::Char('~') => {
                let mut tree = tree;
                tree.set_ptr(0);
                self.list.rebuild(&tree);
                (tree, Reply::Redraw)
            },
            Key::Right | Key::Char('l') => {
                match tree.nth_child(self.list.index()) {
                    Ok(child) => {
                        let tree = descend(tree, child);
                        self.list.rebuild(&tree);
                        (tree, Reply::Redraw)
                    },
                    Err(_) => (tree, Reply::Nothing),
                }
            },
            Key::Up | Key::Char('k') => {
                self.list.decrement();
                (tree, Reply::Redraw)
            },
            Key::Down | Key::Char('j') => {
                self.list.increment();
                (tree, Reply::Redraw)
            },
            Key::Char('d') => {
                match tree.nth_child(self.list.index()) {
                    Ok(child) => {
                        proof {
                            crate::lemmas::lemma_nth_child_is_node(tree@, self.list@.index);
                        }
                        let tree = delete(tree, child);
                        self.list.rebuild(&tree);
                        (tree, Reply::Redraw)
                    },
                    Err(_) => (tree, Reply::Nothing),
                }
            },
            Key::Char('i') => {
                self.mode = Mode::Input;
                (tree, Reply::OpenInput)
            },
            Key::Char('q') => (tree, Reply::Quit),
            _ => (tree, Reply::Redraw),
        }
    }

    fn press_input(&mut self, key: Key, tree: Tree) -> (r: (Tree, Reply))
        requires
            tree@.well_formed(),
            old(self)@.well_formed(),
            old(self)@.mode == Mode::Input,
        ensures
            r.0@.well_formed(),
            final(self)@.well_formed(),
            if key == Key::Esc {
                r.0@ == tree@ && final(self)@ == (ScreenView {
                    mode: Mode::Normal,
                    buffer: Seq::empty(),
                    cursor_offset: 0,
                    ..old(self)@
                }) && r.1 == Reply::CloseInput
            } else if is_submit(key) {
                r.0@ == tree@.added(TaskView { name: old(self)@.buffer, ..Task::new_view() })
                    && final(self)@ == old(self)@.showing(r.0@) && r.1 == Reply::CloseInput
            } else {
                r.0@ == tree@ && (final(self)@, r.1) == old(self)@.edited(key)
            },
    {
        let len: usize = self.buffer.len();
        match key {
            Key::Esc => {
                self.buffer.clear();
                self.cursor_offset = 0;
                self.mode = Mode::Normal;
                (tree, Reply::CloseInput)
            },
            Key::Delete => {
                if self.cursor_offset > 0 {
                    let index: usize = len - self.cursor_offset;
                    self.buffer.remove(index);
                    self.cursor_offset -= 1;
                    (tree, Reply::Rewrite { from: index, step_back: false })
                } else {
                    (tree, Reply::Nothing)
                }
            },
            Key::Backspace | Key::Ctrl('h') => {
                if self.cursor_offset < len {
                    let index: usize = len - self.cursor_offset - 1;
                    self.buffer.remove(index);
                    (tree, Reply::Rewrite { from: index, step_back: true })
                } else {
                    (tree, Reply::Nothing)
                }
            },
            Key::Right | Key::Ctrl('f') => {
                if self.cursor_offset > 0 {
                    self.cursor_offset -= 1;
                    (tree, Reply::CursorRight)
                } else {
                    (tree, Reply::Nothing)
                }
            },
            Key::Left | Key::Ctrl('b') => {
                if self.cursor_offset < len {
                    self.cursor_offset += 1;
                    (tree, Reply::CursorLeft)
                } else {
                    (tree, Reply::Nothing)
                }
            },
            Key::Char('\n') | Key::Ctrl('j') => {
                let task = Task::new().set_name(text_of(&self.buffer));
                let tree = crate::tree::add(tree, task);
                self.buffer.clear();
                self.cursor_offset = 0;
                self.list.rebuild(&tree);
                self.mode = Mode::Normal;
                (tree, Reply::CloseInput)
            },
            Key::Char(c) => {
                self.buffer.push(c);
                (tree, Reply::Typed(c))
            },
            _ => (tree, Reply::Nothing),
        }
    }
}

} // verus!
