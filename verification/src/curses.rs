//! A list with a selection that wraps around: after the last item comes the
//! first, and before the first the last.

use crate::model::TreeView;
use crate::tree::Tree;
use vstd::prelude::*;

verus! {

/// What the list holds, as a mathematical value.
pub ghost struct StatefulListView {
    /// The position of the selected item, if one is selected.
    pub selected: Option<usize>,
    pub items: Seq<Seq<char>>,
}

/// A list of items, one of which may be selected.
#[derive(Debug)]
pub struct StatefulList {
    selected: Option<usize>,
    items: Vec<String>,
}

impl View for StatefulList {
    type V = StatefulListView;

    closed spec fn view(&self) -> StatefulListView {
        StatefulListView {
            selected: self.selected,
            items: Seq::new(self.items@.len(), |i: int| self.items@[i]@),
        }
    }
}

/// The item for the child `child`: its name, after a `+` where it has
/// children.
pub open spec fn marked_name(tree: TreeView, child: usize) -> Seq<char> {
    let node = tree.nodes[child as int];
    (if node.children.len() > 0 {
        "+ "@
    } else {
        "  "@
    }) + node.name
}

/// An item for each pending child of the current node, in order.
pub open spec fn marked_names(tree: TreeView) -> Seq<Seq<char>> {
    Seq::new(
        tree.pending_children().len(),
        |k: int| marked_name(tree, tree.pending_children()[k]),
    )
}

impl StatefulList {
    /// A list with the first position selected.
    pub fn new(items: Vec<String>) -> (r: StatefulList)
        ensures
            r@.selected == Some(0usize),
            r@.items == Seq::new(items@.len(), |i: int| items@[i]@),
    {
        StatefulList { selected: Some(0), items }
    }

    /// The position of the selected item.
    pub fn selected(&self) -> (r: Option<usize>)
        ensures
            r == self@.selected,
    {
        self.selected
    }

    /// The number of items.
    pub fn len(&self) -> (r: usize)
        ensures
            r == self@.items.len(),
    {
        self.items.len()
    }

    /// The item at position `k`.
    pub fn item(&self, k: usize) -> (r: Option<&String>)
        ensures
            match r {
                Some(item) => k < self@.items.len() && item@ == self@.items[k as int],
                None => k >= self@.items.len(),
            },
    {
        if k < self.items.len() {
            Some(&self.items[k])
        } else {
            None
        }
    }

    /// Selects the next item; after the last one comes the first. With
    /// nothing selected the first item is selected.
    pub fn next(&mut self)
        requires
            old(self)@.items.len() > 0,
        ensures
            final(self)@ == (StatefulListView {
                selected: Some(
                    match old(self)@.selected {
                        Some(i) => if i >= old(self)@.items.len() - 1 {
                            0usize
                        } else {
                            (i + 1) as usize
                        },
                        None => 0usize,
                    },
                ),
                ..old(self)@
            }),
    {
        let i: usize = match self.selected {
            Some(i) => {
                if i >= self.items.len() - 1 {
                    0
                } else {
                    i + 1
                }
            },
            None => 0,
        };
        self.selected = Some(i);
    }

    /// Selects the item before; before the first one comes the last. With
    /// nothing selected the first item is selected.
    pub fn previous(&mut self)
        requires
            old(self)@.items.len() > 0,
        ensures
            final(self)@ == (StatefulListView {
                selected: Some(
                    match old(self)@.selected {
                        Some(i) => if i == 0 {
                            (old(self)@.items.len() - 1) as usize
                        } else {
                            (i - 1) as usize
                        },
                        None => 0usize,
                    },
                ),
                ..old(self)@
            }),
    {
        let i: usize = match self.selected {
            Some(i) => {
                if i == 0 {
                    self.items.len() - 1
                } else {
                    i - 1
                }
            },
            None => 0,
        };
        self.selected = Some(i);
    }
}

/// The list for the current node of the tree: an item for each pending
/// child, with the first position selected.
pub fn rebuild_list(tree: &Tree) -> (r: StatefulList)
    requires
        tree@.well_formed(),
    ensures
        r@.selected == Some(0usize),
        r@.items == marked_names(tree@),
{
    let ghost shown = tree@.pending_children();
    let ghost nodes = tree@.nodes;
    let mut items: Vec<String> = Vec::new();
    let mut walk = tree.pending_children();
    loop
        invariant
            walk.well_formed(),
            walk.nodes() == nodes,
            shown == tree@.pending_children(),
            nodes == tree@.nodes,
            items@.len() <= shown.len(),
            walk.upcoming() == shown.skip(items@.len() as int),
            forall|k: int|
                0 <= k < items@.len() ==> (#[trigger] items@[k])@ == marked_name(tree@, shown[k]),
        ensures
            items@.len() == shown.len(),
            forall|k: int|
                0 <= k < items@.len() ==> (#[trigger] items@[k])@ == marked_name(tree@, shown[k]),
        decreases shown.len() - items@.len(),
    {
        let ghost at = items@.len() as int;
        match walk.next() {
            Some(task) => {
                proof {
                    assert(shown.skip(at)[0] == shown[at]);
                    assert(shown.skip(at).drop_first() =~= shown.skip(at + 1));
                }
                let mut item = if task.has_children() {
                    "+ ".to_owned()
                } else {
                    "  ".to_owned()
                };
                item.append(task.name().as_str());
                items.push(item);
            },
            None => {
                break ;
            },
        }
    }
    let list = StatefulList::new(items);
    assert(list@.items =~= marked_names(tree@));
    list
}

} // verus!
