use marc::edit::{apply_edit, parse_edit_commands, render_edit_buffer};
use marc::store::{TodoItem, TodoList};

fn item(hash: &str, desc: &str, done: bool, tag: &str) -> TodoItem {
    TodoItem { hash: hash.to_string(), desc: desc.to_string(), is_completed: done, tag: Some(tag.to_string()) }
}

fn three() -> Vec<TodoItem> {
    vec![item("aaaaaaa", "first", false, "default"), item("bbbbbbb", "second", true, "work"), item("ccccccc", "third one", false, "x")]
}

#[test]
fn buffer_layout() {
    let items = vec![item("abc1234", "first", false, "t"), item("def5678", "second", false, "t")];
    assert_eq!(
        render_edit_buffer(&items),
        "pick 1 first\npick 2 second\n\n# Interactive todo editing\n# Commands:\n#   pick, p <todo> = keep the todo\n#   drop, d <todo> = remove the todo\n# Lines starting with # are ignored\n"
    );
}

#[test]
fn unedited_buffer_gives_the_items_back() {
    let items = three();
    let buffer = render_edit_buffer(&items);
    assert_eq!(parse_edit_commands(&buffer, &items), items);
}

#[test]
fn drop_second_line() {
    let items = three();
    let buffer = render_edit_buffer(&items).replacen("pick 2", "drop 2", 1);
    assert_eq!(parse_edit_commands(&buffer, &items), vec![items[0].clone(), items[2].clone()]);
}

#[test]
fn reordering_lines_reorders_items() {
    let items = three();
    let r = parse_edit_commands("pick 3 third one\np 1\n", &items);
    assert_eq!(r, vec![items[2].clone(), items[0].clone()]);
}

#[test]
fn short_verbs_and_other_verbs() {
    let items = three();
    let r = parse_edit_commands("d 1\nkeep 2 x\np 3", &items);
    assert_eq!(r, vec![items[1].clone(), items[2].clone()]);
}

#[test]
fn lines_that_say_nothing_are_skipped() {
    let items = three();
    let content = "\n# pick 1\npick\npick 0\npick 4\npick x\n2 pick\n   \npick -1\n";
    assert!(parse_edit_commands(content, &items).is_empty());
}

#[test]
fn surrounding_space_and_plus_sign() {
    let items = three();
    let r = parse_edit_commands("   pick 2 second   \r\n\tpick +3", &items);
    assert_eq!(r, vec![items[1].clone(), items[2].clone()]);
}

#[test]
fn a_position_is_kept_once() {
    let items = three();
    let r = parse_edit_commands("pick 1\npick 1\npick 2", &items);
    assert_eq!(r, vec![items[0].clone(), items[1].clone()]);
}

#[test]
fn huge_positions_are_out_of_range() {
    let items = three();
    assert!(parse_edit_commands("pick 99999999999999999999999999", &items).is_empty());
}

#[test]
fn apply_edit_replaces_the_items() {
    let mut list = TodoList::from_items(three()).unwrap();
    apply_edit(&mut list, "pick 3\ndrop 1\npick 1");
    assert_eq!(list.items(), &vec![three()[2].clone(), three()[0].clone()]);
}

#[test]
fn fields_are_separated_by_any_white_space() {
    let items = three();
    let r = parse_edit_commands("pick\t2 b\npick  3 c\n", &items);
    assert_eq!(r, vec![items[1].clone(), items[2].clone()]);
    let r = parse_edit_commands("drop \t 1\np\u{3000}1", &items);
    assert_eq!(r, vec![items[0].clone()]);
}

#[test]
fn drop_second_with_picks_reordered() {
    let items = three();
    let r = parse_edit_commands("pick 3 third one\ndrop 2 second\npick 1 first\n", &items);
    assert_eq!(r, vec![items[2].clone(), items[0].clone()]);
}
