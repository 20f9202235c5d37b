use time::Date;
use toru::document::{decode, encode, Document, Record};
use toru::task::{Status, Task};
use toru::tree::{add, complete, delete, Tree};

fn record(parent: Option<usize>, name: &str, children: Vec<usize>) -> Record {
    Record { parent, name: name.to_string(), due: None, status: Status::Pending, children }
}

#[test]
fn encode_copies_every_field() {
    let date = Date::try_from_ymd(2019, 1, 1).unwrap().midnight();
    let mut tree = Tree::new();
    tree = add(tree, Task::new().set_name("a".to_string()).set_due(date));
    tree = add(tree, Task::new().set_name("b".to_string()));
    tree = complete(tree, 2);
    tree.set_ptr(1);
    let doc = encode(&tree);
    assert_eq!(doc.cursor, 1);
    assert_eq!(doc.tasks.len(), 3);
    assert_eq!(doc.tasks[0].parent, None);
    assert_eq!(doc.tasks[0].name, "Root");
    assert_eq!(doc.tasks[0].children, vec![1, 2]);
    assert_eq!(doc.tasks[1].parent, Some(0));
    assert_eq!(doc.tasks[1].name, "a");
    assert_eq!(doc.tasks[1].due, Some(date));
    assert_eq!(doc.tasks[1].status, Status::Pending);
    assert_eq!(doc.tasks[2].name, "b");
    assert_eq!(doc.tasks[2].due, None);
    assert_eq!(doc.tasks[2].status, Status::Complete);
}

#[test]
fn round_trip_gives_the_tree_back() {
    let date = Date::try_from_ymd(2022, 6, 15).unwrap().try_with_hms(9, 30, 0).unwrap();
    let mut tree = Tree::new();
    for name in ["a", "b", "c", "d"] {
        tree = add(tree, Task::new().set_name(name.to_string()));
    }
    tree.set_ptr(2);
    tree = add(tree, Task::new().set_name("e".to_string()).set_due(date));
    tree = complete(tree, 3);
    tree = delete(tree, 1);
    let back = decode(&encode(&tree)).unwrap();
    assert_eq!(back.ptr(), tree.ptr());
    assert_eq!(back.tasks().len(), tree.tasks().len());
    for (old, new) in tree.tasks().iter().zip(back.tasks().iter()) {
        assert_eq!(old.parent(), new.parent());
        assert_eq!(old.name(), new.name());
        assert_eq!(old.due(), new.due());
        assert_eq!(old.status(), new.status());
        assert_eq!(old.children(), new.children());
    }
}

#[test]
fn decode_reads_a_document() {
    let doc = Document {
        cursor: 2,
        tasks: vec![
            record(None, "Root", vec![2]),
            record(Some(2), "leaf", vec![]),
            record(Some(0), "inner", vec![1]),
        ],
    };
    let tree = decode(&doc).unwrap();
    assert_eq!(tree.ptr(), 2);
    assert_eq!(tree.tasks().len(), 3);
    assert_eq!(tree.current().name(), "inner");
    assert_eq!(tree.current().children(), &vec![1]);
    assert_eq!(tree.tasks()[1].parent(), Some(2));
}

#[test]
fn decode_refuses_what_is_no_tree() {
    let empty = Document { cursor: 0, tasks: vec![] };
    assert!(decode(&empty).is_none());
    let cursor = Document { cursor: 1, tasks: vec![record(None, "Root", vec![])] };
    assert!(decode(&cursor).is_none());
    let orphan = Document {
        cursor: 0,
        tasks: vec![record(None, "Root", vec![]), record(Some(0), "a", vec![])],
    };
    assert!(decode(&orphan).is_none());
    let stranger = Document {
        cursor: 0,
        tasks: vec![record(None, "Root", vec![1]), record(None, "a", vec![])],
    };
    assert!(decode(&stranger).is_none());
    let ring = Document {
        cursor: 0,
        tasks: vec![
            record(None, "Root", vec![]),
            record(Some(2), "a", vec![2]),
            record(Some(1), "b", vec![1]),
        ],
    };
    assert!(decode(&ring).is_none());
}
