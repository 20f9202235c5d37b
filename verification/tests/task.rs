use time::Date;
use toru::task::{Status, Task};

#[test]
fn new_task_is_a_pending_root() {
    let task = Task::new();
    assert_eq!(task.parent(), None);
    assert_eq!(task.name(), "Root");
    assert_eq!(task.due(), &None);
    assert_eq!(task.status(), Status::Pending);
    assert!(!task.is_complete());
    assert!(task.children().is_empty());
    assert!(!task.has_children());
}

#[test]
fn setters_set_their_field() {
    let date = Date::try_from_ymd(2019, 1, 1).unwrap().midnight();
    let task = Task::new().set_parent(3).set_name("Hello!".to_string()).set_due(date);
    assert_eq!(task.parent(), Some(3));
    assert_eq!(task.name(), "Hello!");
    assert_eq!(task.due(), &Some(date));
    assert!(!task.is_complete());
    // Setting the same value again changes nothing.
    let again = task.clone().set_parent(3).set_name("Hello!".to_string()).set_due(date);
    assert_eq!(again.parent(), task.parent());
    assert_eq!(again.name(), task.name());
    assert_eq!(again.due(), task.due());
}

#[test]
fn complete_is_kept() {
    let task = Task::new().complete();
    assert!(task.is_complete());
    assert_eq!(task.status(), Status::Complete);
    assert!(task.complete().is_complete());
}

#[test]
fn children_are_added_in_order() {
    let task = Task::new().add_child(1).add_child(5).add_child(2);
    assert_eq!(task.children(), &vec![1, 5, 2]);
    assert!(task.has_children());
    assert!(task.is_child(5));
    assert!(!task.is_child(3));
}

#[test]
fn remove_child_takes_every_occurrence() {
    let task = Task::new().add_child(1).add_child(2).add_child(1).add_child(3);
    let task = task.remove_child(1);
    assert_eq!(task.children(), &vec![2, 3]);
    let task = task.remove_child(7);
    assert_eq!(task.children(), &vec![2, 3]);
    let task = task.remove_child(3).remove_child(2);
    assert!(!task.has_children());
}

#[test]
fn replace_child_renames_every_occurrence() {
    let task = Task::new().add_child(1).add_child(2);
    let task = task.replace_child(1, 3);
    assert_eq!(task.children(), &vec![3, 2]);
    let task = task.replace_child(9, 4);
    assert_eq!(task.children(), &vec![3, 2]);
    let task = task.add_child(3).replace_child(3, 2);
    assert_eq!(task.children(), &vec![2, 2, 2]);
}

#[test]
fn clone_copies_every_field() {
    let date = Date::try_from_ymd(2020, 2, 29).unwrap().midnight();
    let task = Task::new().set_name("x".to_string()).set_due(date).add_child(4).complete();
    let copy = task.clone();
    assert_eq!(copy.name(), "x");
    assert_eq!(copy.due(), &Some(date));
    assert_eq!(copy.children(), &vec![4]);
    assert!(copy.is_complete());
    assert_eq!(copy.parent(), None);
}

#[test]
fn from_parts_keeps_the_parts() {
    let task = Task::from_parts(Some(2), "n".to_string(), None, Status::Complete, vec![7, 8]);
    assert_eq!(task.parent(), Some(2));
    assert_eq!(task.name(), "n");
    assert_eq!(task.due(), &None);
    assert!(task.is_complete());
    assert_eq!(task.children(), &vec![7, 8]);
}

#[test]
fn task_as_text() {
    let task = Task::new().set_name("Buy milk".to_string());
    assert_eq!(task.to_string(), "Buy milk");
    let date = Date::try_from_ymd(2019, 1, 1).unwrap().midnight();
    let task = task.set_due(date);
    assert_eq!(task.to_string(), "Buy milk | 12:00 am 2019-01-01");
    let later = Date::try_from_ymd(2021, 12, 24).unwrap().try_with_hms(18, 5, 0).unwrap();
    assert_eq!(task.set_due(later).to_string(), "Buy milk | 06:05 pm 2021-12-24");
}
