//! The line-based front end: a console held in memory, the commands, and
//! what they print.

use crate::date::{format_date, formatted, parse_date, parsed, typed_format};
use crate::deletion::deletion;
use crate::error::ToruError;
use crate::lemmas::{lemma_nth_child_is_node, lemma_pending_bounded, lemma_pending_members};
use crate::model::{has_valid_children, pending, TreeView};
use crate::task::{Task, TaskView};
use crate::text::{
    dashes, dashes_string, decimal, decimal_string, number, parse_number, trim_end, trimmed_end,
};
use crate::tree::{ascend, complete, delete, descend, Tree};
use time::{ParseError, PrimitiveDateTime};
use vstd::prelude::*;
use vstd::utf8::encode_utf8;

verus! {

/// What a console holds, as a mathematical value.
pub ghost struct IOView {
    /// The lines that wait to be read, the next one first.
    pub pending: Seq<Seq<char>>,
    /// The text that has been written and not yet taken.
    pub written: Seq<char>,
    /// The line that was read last.
    pub buffer: Seq<char>,
}

/// A console held in memory. Whoever owns the terminal feeds it the lines
/// that were typed and takes the text that is to be shown.
#[derive(Debug)]
pub struct IO {
    lines: Vec<String>,
    output: String,
    buffer: String,
}

impl View for IO {
    type V = IOView;

    closed spec fn view(&self) -> IOView {
        IOView {
            pending: Seq::new(self.lines@.len(), |i: int| self.lines@[i]@),
            written: self.output@,
            buffer: self.buffer@,
        }
    }
}

impl IO {
    /// A console with nothing to read and nothing written.
    pub fn new() -> (r: Self)
        ensures
            r@ == (IOView { pending: Seq::empty(), written: Seq::empty(), buffer: Seq::empty() }),
    {
        let io = IO { lines: Vec::new(), output: String::new(), buffer: String::new() };
        assert(io@.pending =~= Seq::empty());
        io
    }

    /// Puts `line` behind the lines that wait to be read.
    pub fn feed(&mut self, line: String)
        ensures
            final(self)@ == (IOView { pending: old(self)@.pending.push(line@), ..old(self)@ }),
    {
        self.lines.push(line);
        assert(final(self)@.pending =~= old(self)@.pending.push(line@));
    }

    /// Reads the next line. Where no line waits, the result is empty, as at
    /// the end of the input.
    pub fn readln(&mut self) -> (r: String)
        ensures
            old(self)@.pending.len() > 0 ==> r@ == old(self)@.pending[0] && final(self)@ == (IOView {
                pending: old(self)@.pending.drop_first(),
                buffer: r@,
                ..old(self)@
            }),
            old(self)@.pending.len() == 0 ==> r@ == Seq::<char>::empty() && final(self)@ == (IOView {
                buffer: r@,
                ..old(self)@
            }),
    {
        if self.lines.len() > 0 {
            let line = self.lines.remove(0);
            self.buffer = line.clone();
            assert(final(self)@.pending =~= old(self)@.pending.drop_first());
            line
        } else {
            self.buffer = String::new();
            String::new()
        }
    }

    /// Writes `s` and ends the line.
    pub fn writeln(&mut self, s: &str)
        ensures
            final(self)@ == (IOView {
                written: old(self)@.written + s@ + seq!['\n'],
                ..old(self)@
            }),
    {
        proof {
            reveal_strlit("\n");
        }
        self.output.append(s);
        self.output.append("\n");
        assert("\n"@ =~= seq!['\n']);
    }

    /// Writes `s`.
    pub fn write(&mut self, s: &str)
        ensures
            final(self)@ == (IOView { written: old(self)@.written + s@, ..old(self)@ }),
    {
        self.output.append(s);
    }

    /// Hands out the text that has been written; nothing is written
    /// afterwards.
    pub fn take_output(&mut self) -> (r: String)
        ensures
            r@ == old(self)@.written,
            final(self)@ == (IOView { written: Seq::empty(), ..old(self)@ }),
    {
        let text = self.output.clone();
        self.output = String::new();
        text
    }
}

/// What the user can ask for.
#[derive(Clone, Copy, Debug, PartialEq, Eq, Structural)]
pub enum Command {
    Add,
    Ascend,
    Complete,
    Delete,
    Descend,
    List,
    Help,
    Exit,
}

/// Whether the two texts are the same.
fn same_text(a: &str, b: &str) -> (r: bool)
    ensures
        r == (a@ == b@),
{
    let a: String = a.to_owned();
    let b: String = b.to_owned();
    a == b
}

impl Command {
    /// The command that `text` names, or the error that says that it names
    /// none.
    pub open spec fn parsed(text: Seq<char>) -> Result<Command, ToruError> {
        if text == "add"@ {
            Ok(Command::Add)
        } else if text == "up"@ {
            Ok(Command::Ascend)
        } else if text == "del"@ {
            Ok(Command::Delete)
        } else if text == "done"@ {
            Ok(Command::Complete)
        } else if text == "down"@ {
            Ok(Command::Descend)
        } else if text == "list"@ {
            Ok(Command::List)
        } else if text == "help"@ {
            Ok(Command::Help)
        } else if text == "exit"@ {
            Ok(Command::Exit)
        } else {
            Err(ToruError::ParseCommandFailure)
        }
    }

    /// Reads a command from its name.
    pub fn parse(s: &str) -> (r: Result<Command, ToruError>)
        ensures
            r == Self::parsed(s@),
    {
        if same_text(s, "add") {
            Ok(Command::Add)
        } else if same_text(s, "up") {
            Ok(Command::Ascend)
        } else if same_text(s, "del") {
            Ok(Command::Delete)
        } else if same_text(s, "done") {
            Ok(Command::Complete)
        } else if same_text(s, "down") {
            Ok(Command::Descend)
        } else if same_text(s, "list") {
            Ok(Command::List)
        } else if same_text(s, "help") {
            Ok(Command::Help)
        } else if same_text(s, "exit") {
            Ok(Command::Exit)
        } else {
            Err(ToruError::ParseCommandFailure)
        }
    }
}

impl core::str::FromStr for Command {
    type Err = ToruError;

    /// Reads a command from its name.
    fn from_str(s: &str) -> (r: Result<Self, Self::Err>)
        ensures
            r == Command::parsed(s@),
    {
        Command::parse(s)
    }
}

/// `written` with the line `line` after it.
pub open spec fn with_line(written: Seq<char>, line: Seq<char>) -> Seq<char> {
    written + line + seq!['\n']
}

/// `written` with the help text after it.
pub open spec fn with_help(written: Seq<char>) -> Seq<char> {
    let a = with_line(written, "\nToru help:"@);
    let b = with_line(a, "add - Add a task."@);
    let c = with_line(b, "delete - Delete a task."@);
    let d = with_line(c, "done - Complete a task."@);
    let e = with_line(d, "down - Traverse 'down' into a task."@);
    let f = with_line(e, "exit - Exit toru."@);
    let g = with_line(f, "help - Show the help message."@);
    let h = with_line(g, "list - Print current task and its children"@);
    let i = with_line(h, "up - Traverse 'up' to a tasks' parent"@);
    with_line(i, ""@)
}

/// Writes the help text: a heading, one line for each command, and an empty
/// line.
pub fn help(io: &mut IO)
    ensures
        final(io)@ == (IOView { written: with_help(old(io)@.written), ..old(io)@ }),
{
    io.writeln("\nToru help:");
    io.writeln("add - Add a task.");
    io.writeln("delete - Delete a task.");
    io.writeln("done - Complete a task.");
    io.writeln("down - Traverse 'down' into a task.");
    io.writeln("exit - Exit toru.");
    io.writeln("help - Show the help message.");
    io.writeln("list - Print current task and its children");
    io.writeln("up - Traverse 'up' to a tasks' parent");
    io.writeln("");
}

/// The name under which the current node is listed: "Home" for the root.
pub open spec fn label(tree: TreeView) -> Seq<char> {
    if tree.cursor == 0 {
        "Home"@
    } else {
        tree.current().name
    }
}

/// The head of a listing: an arrow where there is a way up, the label of
/// the current node, and a line of dashes as long as the label has bytes.
pub open spec fn heading(tree: TreeView) -> Seq<char> {
    let mark = if tree.cursor == 0 {
        ""@
    } else {
        "\u{2191}"@
    };
    mark + seq!['\n'] + label(tree) + seq!['\n'] + dashes(byte_len(label(tree)) as nat) + seq![
        '\n',
    ]
}

/// The number of bytes that `text` takes.
pub open spec fn byte_len(text: Seq<char>) -> usize {
    encode_utf8(text).len() as usize
}

/// The line for the child `child` at position `position` of a listing: its
/// number, counted from 1, a `+` where it has pending children of its own,
/// and the task as text.
pub open spec fn entry(nodes: Seq<TaskView>, position: nat, child: usize) -> Seq<char> {
    let node = nodes[child as int];
    let mark = if node.children.len() > 0 && pending(nodes, node.children).len() > 0 {
        "+ "@
    } else {
        "  "@
    };
    decimal(position + 1) + ". "@ + mark + node.text() + seq!['\n']
}

/// The lines for `children`, one after the other.
pub open spec fn entries(nodes: Seq<TaskView>, children: Seq<usize>) -> Seq<char>
    decreases children.len(),
{
    if children.len() == 0 {
        Seq::empty()
    } else {
        entries(nodes, children.drop_last()) + entry(
            nodes,
            (children.len() - 1) as nat,
            children.last(),
        )
    }
}

/// The listing of the current node: the head, a line for each pending
/// child, and an empty line.
pub open spec fn listing(tree: TreeView) -> Seq<char> {
    heading(tree) + entries(tree.nodes, tree.pending_children()) + seq!['\n']
}

/// Writes the listing of the current node.
pub fn list(io: &mut IO, tree: &Tree)
    requires
        tree@.well_formed(),
    ensures
        final(io)@ == (IOView { written: old(io)@.written + listing(tree@), ..old(io)@ }),
{
    let ghost before = io@.written;
    let ghost nodes = tree@.nodes;
    let ghost shown = tree@.pending_children();
    let at_root = tree.at_root();
    let name: &str = if at_root {
        "Home"
    } else {
        tree.current().name().as_str()
    };
    let mark: &str = if at_root {
        ""
    } else {
        "\u{2191}"
    };
    let mut head = mark.to_owned();
    head.append("\n");
    head.append(name);
    head.append("\n");
    let line = dashes_string(name.len());
    head.append(line.as_str());
    proof {
        reveal_strlit("\n");
        assert("\n"@ =~= seq!['\n']);
    }
    io.writeln(head.as_str());
    assert(io@.written =~= before + heading(tree@));
    let mut walk = tree.pending_children();
    let mut id: usize = 0;
    proof {
        lemma_pending_bounded(tree@);
        lemma_pending_members(nodes, tree@.current().children);
        assert(has_valid_children(nodes, tree@.cursor as int));
        assert(shown.take(0) =~= Seq::<usize>::empty());
    }
    loop
        invariant
            tree@.well_formed(),
            nodes == tree@.nodes,
            shown == tree@.pending_children(),
            shown.len() <= usize::MAX,
            walk.well_formed(),
            walk.nodes() == nodes,
            id <= shown.len(),
            walk.upcoming() == shown.skip(id as int),
            io@ == (IOView {
                written: before + heading(tree@) + entries(nodes, shown.take(id as int)),
                ..old(io)@
            }),
            forall|c: usize| #[trigger]
                shown.contains(c) ==> tree@.current().children.contains(c),
            has_valid_children(nodes, tree@.cursor as int),
        ensures
            id == shown.len(),
            io@ == (IOView {
                written: before + heading(tree@) + entries(nodes, shown),
                ..old(io)@
            }),
        decreases shown.len() - id,
    {
        match walk.next() {
            Some(task) => {
                let ghost child = shown[id as int];
                proof {
                    assert(shown.skip(id as int)[0] == child);
                    assert(shown.contains(child));
                    let k = choose|k: int|
                        0 <= k < tree@.current().children.len() && tree@.current().children[k]
                            == child;
                    assert(tree@.current().children[k] < nodes.len());
                    assert(has_valid_children(nodes, child as int));
                    assert(shown.skip(id as int).drop_first() =~= shown.skip(id as int + 1));
                }
                let mark: &str = if task.has_children() && tree.has_pending(task) {
                    "+ "
                } else {
                    "  "
                };
                let mut line = decimal_string(id + 1);
                line.append(". ");
                line.append(mark);
                let text = task.to_string();
                line.append(text.as_str());
                let ghost so_far = io@.written;
                io.writeln(line.as_str());
                proof {
                    let next = shown.take(id as int + 1);
                    assert(next.drop_last() =~= shown.take(id as int));
                    assert(next.last() == child);
                    assert(line@ + seq!['\n'] =~= entry(nodes, id as nat, child));
                    assert(io@.written =~= before + heading(tree@) + entries(nodes, next));
                }
                id += 1;
            },
            None => {
                proof {
                    assert(shown.take(id as int) =~= shown);
                }
                break ;
            },
        }
    }
    io.writeln("");
    proof {
        reveal_strlit("");
        assert(""@ =~= Seq::<char>::empty());
        assert(io@.written =~= before + listing(tree@));
    }
}

/// What a line of input says about a position among the pending children:
/// the index of that position, counted from 0, where the line holds a number
/// from 1 on.
pub open spec fn position(line: Seq<char>) -> Result<usize, ToruError> {
    match number(trimmed_end(line)) {
        Some(n) => if n > 0 {
            Ok((n - 1) as usize)
        } else {
            Err(ToruError::InvalidIndex(0))
        },
        None => Err(ToruError::ParseCommandFailure),
    }
}

/// Reads a position from a line of input. Positions are typed as numbers
/// from 1 on.
pub fn index_from_input(line: &str) -> (r: Result<usize, ToruError>)
    ensures
        r == position(line@),
{
    match parse_number(trim_end(line)) {
        Some(n) => {
            if n > 0 {
                Ok(n - 1)
            } else {
                Err(ToruError::InvalidIndex(0))
            }
        },
        None => Err(ToruError::ParseCommandFailure),
    }
}

/// The node that a line of input asks for: the pending child of the current
/// node at the position that the line holds.
pub open spec fn resolved(tree: TreeView, line: Seq<char>) -> Result<usize, ToruError> {
    match position(line) {
        Ok(at) => tree.nth_child(at),
        Err(error) => Err(error),
    }
}

/// Finds the child that the line of input asks for, and hands the tree and
/// the index of that child to `f`. Where the line asks for no child, the
/// tree comes back as it is, with the error that says why.
pub fn verify_index_and<F>(line: &str, tree: Tree, f: F) -> (r: (Tree, Option<ToruError>))
    where F: FnOnce(Tree, usize) -> Tree
    requires
        tree@.well_formed(),
        forall|idx: usize| 0 < idx < tree@.nodes.len() ==> f.requires((tree, idx)),
    ensures
        match resolved(tree@, line@) {
            Ok(idx) => f.ensures((tree, idx), r.0) && r.1 is None,
            Err(error) => r.0 == tree && r.1 == Some(error),
        },
{
    match index_from_input(line) {
        Ok(at) => match tree.nth_child(at) {
            Ok(idx) => {
                proof {
                    lemma_nth_child_is_node(tree@, at);
                }
                (f(tree, idx), None)
            },
            Err(error) => (tree, Some(error)),
        },
        Err(error) => (tree, Some(error)),
    }
}

/// Reads a command from a line of input. A line that names no command asks
/// for help.
pub fn command_from_input(line: &str) -> (r: Command)
    ensures
        r == match Command::parsed(trimmed_end(line@)) {
            Ok(command) => command,
            Err(_) => Command::Help,
        },
{
    match Command::parse(trim_end(line)) {
        Ok(command) => command,
        Err(_) => Command::Help,
    }
}

/// The task that two lines of input describe: its name, and its due date
/// where the second line is not empty.
pub open spec fn described(name_line: Seq<char>, date_line: Seq<char>, parent_idx: usize) -> Option<
    TaskView,
> {
    let task = TaskView {
        name: trimmed_end(name_line),
        parent: Some(parent_idx),
        ..Task::new_view()
    };
    let date = trimmed_end(date_line);
    if date.len() == 0 {
        Some(task)
    } else {
        match parsed(date, typed_format()) {
            Some(due) => Some(TaskView { due: Some(due), ..task }),
            None => None,
        }
    }
}

/// Makes a task from the two lines that were typed for it, the name and the
/// due date. A date that cannot be read gives the error that says why.
pub fn task_from_stdin(name_line: &str, date_line: &str, parent_idx: usize) -> (r: Result<
    Task,
    ParseError,
>)
    ensures
        match r {
            Ok(task) => described(name_line@, date_line@, parent_idx) == Some(task@),
            Err(_) => described(name_line@, date_line@, parent_idx) is None,
        },
{
    let date = trim_end(date_line);
    let task = Task::new().set_name(trim_end(name_line).to_owned()).set_parent(parent_idx);
    if date.is_empty() {
        Ok(task)
    } else {
        match parse_date(date, "%F %I:%M %p") {
            Ok(due) => Ok(task.set_due(due)),
            Err(error) => Err(error),
        }
    }
}

/// What is shown before the due date is typed: the present time, in the
/// format in which a date is typed.
pub fn due_prompt(now: &PrimitiveDateTime) -> (r: String)
    ensures
        r@ == "Due ["@ + formatted(*now, typed_format()) + "]"@,
{
    let mut text = "Due [".to_owned();
    let when = format_date(now, "%F %I:%M %p");
    text.append(when.as_str());
    text.append("]");
    text
}

/// What a command needs besides the tree.
#[derive(Clone, Copy, Debug, PartialEq, Eq, Structural)]
pub enum Need {
    Nothing,
    Task,
    Index,
}

/// What is handed to a command besides the tree.
#[derive(Debug)]
pub enum Argument {
    Nothing,
    Task(Task),
    Index(usize),
}

impl Command {
    /// What the command needs besides the tree: a task to add, or the index
    /// of the node to work on.
    pub fn needs(self) -> (r: Need)
        ensures
            r == match self {
                Command::Add => Need::Task,
                Command::Complete | Command::Delete | Command::Descend => Need::Index,
                _ => Need::Nothing,
            },
    {
        match self {
            Command::Add => Need::Task,
            Command::Complete | Command::Delete | Command::Descend => Need::Index,
            _ => Need::Nothing,
        }
    }

    /// Carries the command out. A command that is not handed what it needs
    /// changes nothing, and so does `Exit`.
    pub fn run(self, io: &mut IO, tree: Tree, argument: Argument) -> (r: Tree)
        requires
            tree@.well_formed(),
        ensures
            match (self, argument) {
                (Command::Add, Argument::Task(task)) => r@ == tree@.added(task@),
                (Command::Ascend, _) => r@ == tree@.ascended(),
                (Command::Complete, Argument::Index(idx)) => r@ == if idx < tree@.nodes.len() {
                    tree@.completed(idx)
                } else {
                    tree@
                },
                (Command::Delete, Argument::Index(idx)) => if 0 < idx < tree@.nodes.len() {
                    exists|place: Seq<int>, slot: Seq<int>| deletion(tree@, r@, idx, place, slot)
                } else {
                    r@ == tree@
                },
                (Command::Descend, Argument::Index(idx)) => r@ == tree@.descended(idx),
                _ => r@ == tree@,
            },
            final(io)@ == (IOView {
                written: match self {
                    Command::List => old(io)@.written + listing(tree@),
                    Command::Help => with_help(old(io)@.written),
                    _ => old(io)@.written,
                },
                ..old(io)@
            }),
            match (self, argument) {
                (Command::Add, Argument::Task(task)) => task@.children.len() == 0
                    ==> r@.well_formed(),
                _ => r@.well_formed(),
            },
    {
        match self {
            Command::Add => match argument {
                Argument::Task(task) => crate::tree::add(tree, task),
                _ => tree,
            },
            Command::Ascend => ascend(tree),
            Command::Complete => match argument {
                Argument::Index(idx) => {
                    if idx < tree.tasks().len() {
                        complete(tree, idx)
                    } else {
                        tree
                    }
                },
                _ => tree,
            },
            Command::Delete => match argument {
                Argument::Index(idx) => delete(tree, idx),
                _ => tree,
            },
            Command::Descend => match argument {
                Argument::Index(idx) => descend(tree, idx),
                _ => tree,
            },
            Command::List => {
                list(io, &tree);
                tree
            },
            Command::Help => {
                help(io);
                tree
            },
            Command::Exit => tree,
        }
    }
}

/// The front end to run.
#[derive(Clone, Copy, Debug, PartialEq, Eq, Structural)]
pub enum RunAs {
    /// The line-based front end.
    Interactive,
    /// The server, which does nothing yet.
    Server,
    /// The full-screen front end.
    Screen,
}

/// What the program was started as.
#[derive(Debug)]
pub struct Instance {
    run_as: RunAs,
}

impl Instance {
    /// The front end that the first argument of the program asks for.
    pub open spec fn chosen(argument: Option<Seq<char>>, lines_only: bool) -> Result<
        RunAs,
        ToruError,
    > {
        match argument {
            Some(value) => if value == "-i"@ {
                Ok(RunAs::Interactive)
            } else if value == "-s"@ {
                Ok(RunAs::Server)
            } else {
                Err(ToruError::InstantiateError)
            },
            None => if lines_only {
                Ok(RunAs::Interactive)
            } else {
                Ok(RunAs::Screen)
            },
        }
    }

    /// The front end that was chosen.
    pub closed spec fn view(&self) -> RunAs {
        self.run_as
    }

    /// Chooses the front end by the first argument of the program: `-i` is
    /// the line-based front end, `-s` the server, and anything else is an
    /// error. Without an argument it is the full-screen front end, or the
    /// line-based one where `lines_only` says that there is no other.
    pub fn from_args(argument: Option<&str>, lines_only: bool) -> (r: Result<Self, ToruError>)
        ensures
            match r {
                Ok(instance) => Self::chosen(
                    match argument {
                        Some(value) => Some(value@),
                        None => None,
                    },
                    lines_only,
                ) == Ok::<RunAs, ToruError>(instance@),
                Err(error) => Self::chosen(
                    match argument {
                        Some(value) => Some(value@),
                        None => None,
                    },
                    lines_only,
                ) == Err::<RunAs, ToruError>(error),
            },
    {
        match argument {
            Some(value) => {
                if same_text(value, "-i") {
                    Ok(Instance { run_as: RunAs::Interactive })
                } else if same_text(value, "-s") {
                    Ok(Instance { run_as: RunAs::Server })
                } else {
                    Err(ToruError::InstantiateError)
                }
            },
            None => {
                if lines_only {
                    Ok(Instance { run_as: RunAs::Interactive })
                } else {
                    Ok(Instance { run_as: RunAs::Screen })
                }
            },
        }
    }

    /// The front end that was chosen.
    pub fn run_as(&self) -> (r: RunAs)
        ensures
            r == self@,
    {
        self.run_as
    }
}

} // verus!
