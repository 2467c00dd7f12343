use marc::cli::CommandLine;
use marc::store::{AddError, MarkDoneError, TodoItem, TodoList};
use marc::{check_before_load, run, CommandError, Outcome};

fn item(hash: &str, desc: &str, done: bool, tag: &str) -> TodoItem {
    TodoItem { hash: hash.to_string(), desc: desc.to_string(), is_completed: done, tag: Some(tag.to_string()) }
}

fn sample() -> TodoList {
    TodoList::from_items(vec![
        item("a1b2c3d", "one", false, "default"),
        item("a1f0000", "two", false, "work"),
        item("ffff000", "three", true, "work"),
    ])
    .unwrap()
}

fn line(v: &[&str]) -> CommandLine {
    CommandLine::new(v.iter().map(|s| s.to_string()).collect()).unwrap()
}

#[test]
fn add_reports_each_description() {
    let mut list = TodoList::new();
    let r = run(&line(&["marc", "add", "-t", "work", "a", "  ", "b"]), &mut list).unwrap();
    match r {
        Outcome::Added(rep) => {
            assert_eq!(rep.added, 2);
            assert_eq!(rep.outcomes.len(), 3);
            assert_eq!(rep.outcomes[1], Err(AddError::EmptyDescription));
            assert_eq!(rep.outcomes[0].as_ref().unwrap().desc, "a");
        },
        other => panic!("unexpected {:?}", other),
    }
    let items = list.items();
    assert_eq!(items.len(), 2);
    assert_eq!(items[1].desc, "b");
    assert_eq!(items[1].tag, Some("work".to_string()));
}

#[test]
fn add_needs_a_description() {
    let mut list = TodoList::new();
    assert_eq!(run(&line(&["marc", "add", "--tag", "x"]), &mut list).unwrap_err(), CommandError::NoEntries);
}

#[test]
fn done_reports_each_prefix() {
    let mut list = sample();
    let r = run(&line(&["marc", "done", "a1b", "zz", "", "a1", "ffff"]), &mut list).unwrap();
    match r {
        Outcome::Marked(rep) => {
            assert_eq!(rep.marked, 1);
            assert_eq!(rep.outcomes[0], Ok(1));
            assert_eq!(rep.outcomes[1], Err(MarkDoneError::NotFound("zz".to_string())));
            assert_eq!(rep.outcomes[2], Err(MarkDoneError::EmptyPrefix));
            assert!(matches!(rep.outcomes[3], Err(MarkDoneError::MultipleMatches(..))));
            assert_eq!(rep.outcomes[4], Err(MarkDoneError::AlreadyCompleted("ffff000".to_string())));
        },
        other => panic!("unexpected {:?}", other),
    }
    assert!(list.items()[0].is_completed);
}

#[test]
fn done_needs_a_prefix() {
    let mut list = sample();
    assert_eq!(run(&line(&["marc", "done"]), &mut list).unwrap_err(), CommandError::NoHashes);
}

#[test]
fn rm_removes_by_unique_prefix_only() {
    let mut list = sample();
    let r = run(&line(&["marc", "rm", "a1", "a1f", " "]), &mut list).unwrap();
    match r {
        Outcome::Removed(outs) => {
            assert_eq!(outs, vec![None, Some(item("a1f0000", "two", false, "work")), None]);
        },
        other => panic!("unexpected {:?}", other),
    }
    assert_eq!(list.items().len(), 2);
}

#[test]
fn rm_errors() {
    let mut list = sample();
    assert_eq!(run(&line(&["marc", "rm", "-d"]), &mut list).unwrap_err(), CommandError::NoHashes);
    let mut empty = TodoList::new();
    assert_eq!(run(&line(&["marc", "rm", "abc"]), &mut empty).unwrap_err(), CommandError::NothingToRemove);
}

#[test]
fn log_filters_by_tag_and_completion() {
    let mut list = sample();
    match run(&line(&["marc", "log", "--tag", "work", "-d"]), &mut list).unwrap() {
        Outcome::Listed(v) => assert_eq!(v, vec![item("ffff000", "three", true, "work")]),
        other => panic!("unexpected {:?}", other),
    }
    match run(&line(&["marc", "log"]), &mut list).unwrap() {
        Outcome::Listed(v) => assert_eq!(v.len(), 3),
        other => panic!("unexpected {:?}", other),
    }
}

#[test]
fn edit_needs_items() {
    let mut empty = TodoList::new();
    assert_eq!(run(&line(&["marc", "edit"]), &mut empty).unwrap_err(), CommandError::NothingToEdit);
    let mut list = sample();
    match run(&line(&["marc", "edit"]), &mut list).unwrap() {
        Outcome::EditBuffer(b) => assert!(b.starts_with("pick 1 one\npick 2 two\npick 3 three\n\n#")),
        other => panic!("unexpected {:?}", other),
    }
}

#[test]
fn help_and_version() {
    let mut list = TodoList::new();
    assert!(matches!(run(&line(&["marc", "-h"]), &mut list), Ok(Outcome::Help)));
    assert!(matches!(run(&line(&["marc", "--version"]), &mut list), Ok(Outcome::Version)));
}

#[test]
fn add_fails_when_every_description_is_blank() {
    let mut list = TodoList::new();
    match run(&line(&["marc", "add", " ", ""]), &mut list) {
        Err(CommandError::NothingAdded(rep)) => {
            assert_eq!(rep.added, 0);
            assert_eq!(rep.outcomes, vec![Err(AddError::EmptyDescription), Err(AddError::EmptyDescription)]);
        },
        other => panic!("unexpected {:?}", other),
    }
    assert!(list.items().is_empty());
}

#[test]
fn done_fails_when_no_prefix_marks_an_item() {
    let mut list = sample();
    let before = list.items().clone();
    match run(&line(&["marc", "done", "ffff", "a1"]), &mut list) {
        Err(CommandError::NothingMarked(rep)) => {
            assert_eq!(rep.marked, 0);
            assert_eq!(rep.outcomes[0], Err(MarkDoneError::AlreadyCompleted("ffff000".to_string())));
            assert!(matches!(rep.outcomes[1], Err(MarkDoneError::MultipleMatches(..))));
        },
        other => panic!("unexpected {:?}", other),
    }
    assert_eq!(list.items(), &before);
}

#[test]
fn refusals_before_loading() {
    assert_eq!(check_before_load(&line(&["marc", "add", "-t", "x"])), Err(CommandError::NoEntries));
    assert_eq!(check_before_load(&line(&["marc", "rm", "-d"])), Err(CommandError::NoHashes));
    assert_eq!(check_before_load(&line(&["marc", "add", "a"])), Ok(()));
    assert_eq!(check_before_load(&line(&["marc", "done"])), Ok(()));
    assert_eq!(check_before_load(&line(&["marc", "log"])), Ok(()));
}

#[test]
fn adding_to_an_empty_list_succeeds() {
    let mut list = TodoList::new();
    assert!(list.add_item("x".to_string(), &None).is_ok());
}
