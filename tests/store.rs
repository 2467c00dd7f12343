use marc::store::{generate_short_hash, short_hash, starts_with, AddError, MarkDoneError, StoreError, TodoItem, TodoList};
use marc::text::{append_decimal, blank, trim};

fn item(hash: &str, desc: &str, done: bool, tag: &str) -> TodoItem {
    TodoItem { hash: hash.to_string(), desc: desc.to_string(), is_completed: done, tag: Some(tag.to_string()) }
}

fn sample() -> TodoList {
    TodoList::from_items(vec![
        item("a1b2c3d", "one", false, "default"),
        item("a1f0000", "two", false, "work"),
        item("ffff000", "three", true, "work"),
    ])
    .unwrap()
}

fn is_hex7(h: &str) -> bool {
    h.chars().count() == 7 && h.chars().all(|c| "0123456789abcdef".contains(c))
}

#[test]
fn add_item_fills_in_defaults() {
    let mut list = TodoList::new();
    let it = list.add_item("buy milk".to_string(), &None).unwrap();
    assert_eq!(it.desc, "buy milk");
    assert_eq!(it.tag, Some("default".to_string()));
    assert!(!it.is_completed);
    assert!(is_hex7(&it.hash));
    assert_eq!(list.items(), &vec![it]);
}

#[test]
fn add_item_keeps_the_given_tag_and_order() {
    let mut list = TodoList::new();
    list.add_item("first".to_string(), &Some("home".to_string())).unwrap();
    list.add_item("second".to_string(), &None).unwrap();
    let items = list.items();
    assert_eq!(items[0].desc, "first");
    assert_eq!(items[0].tag, Some("home".to_string()));
    assert_eq!(items[1].desc, "second");
    assert_ne!(items[0].hash, items[1].hash);
}

#[test]
fn add_item_refuses_blank_descriptions() {
    let mut list = TodoList::new();
    assert_eq!(list.add_item("   \t".to_string(), &None), Err(AddError::EmptyDescription));
    assert_eq!(list.add_item(String::new(), &None), Err(AddError::EmptyDescription));
    assert!(list.items().is_empty());
}

#[test]
fn add_item_with_a_taken_hash_is_refused() {
    let mut list = sample();
    let r = list.add_item_with_hash("new".to_string(), &None, "a1f0000".to_string());
    assert_eq!(r, Err(AddError::DuplicateHash("a1f0000".to_string())));
    assert_eq!(list.items().len(), 3);
    let r = list.add_item_with_hash("new".to_string(), &None, "a1f0001".to_string()).unwrap();
    assert_eq!(r, item("a1f0001", "new", false, "default"));
    assert_eq!(list.items()[3], r);
}

#[test]
fn mark_done_by_unique_prefix() {
    let mut list = sample();
    assert_eq!(list.mark_done("a1b"), Ok(1));
    assert!(list.items()[0].is_completed);
    assert!(!list.items()[1].is_completed);
}

#[test]
fn marking_done_twice_is_refused_and_changes_nothing() {
    let mut list = sample();
    assert_eq!(list.mark_done("a1b2c3d"), Ok(1));
    let before = list.items().clone();
    assert_eq!(list.mark_done("a1b2c3d"), Err(MarkDoneError::AlreadyCompleted("a1b2c3d".to_string())));
    assert_eq!(list.items(), &before);
    assert_eq!(list.mark_done("ffff"), Err(MarkDoneError::AlreadyCompleted("ffff000".to_string())));
}

#[test]
fn shared_prefix_is_ambiguous() {
    let mut list = sample();
    let before = list.items().clone();
    assert_eq!(
        list.mark_done("a1"),
        Err(MarkDoneError::MultipleMatches(
            "a1".to_string(),
            vec![("a1b2c3d".to_string(), "one".to_string()), ("a1f0000".to_string(), "two".to_string())]
        ))
    );
    assert_eq!(list.items(), &before);
    assert_eq!(list.rm_item("a1"), None);
    assert_eq!(list.items(), &before);
}

#[test]
fn mark_done_without_match() {
    let mut list = sample();
    assert_eq!(list.mark_done("zz"), Err(MarkDoneError::NotFound("zz".to_string())));
}

#[test]
fn rm_item_by_unique_prefix() {
    let mut list = sample();
    assert_eq!(list.rm_item("a1f"), Some(item("a1f0000", "two", false, "work")));
    assert_eq!(list.items().len(), 2);
    assert_eq!(list.items()[1].hash, "ffff000");
    assert_eq!(list.rm_item("9"), None);
    assert_eq!(list.items().len(), 2);
}

#[test]
fn loading_checks_the_items() {
    let dup = TodoList::from_items(vec![item("x", "a", false, "t"), item("x", "b", false, "t")]);
    assert_eq!(dup.unwrap_err(), StoreError::DuplicateHash("x".to_string()));
    let empty = TodoList::from_items(vec![item("x", "a", false, "t"), item("y", "", false, "t")]);
    assert_eq!(empty.unwrap_err(), StoreError::EmptyDescription(1));
}

#[test]
fn load_then_save_gives_the_same_items() {
    let items = vec![item("a1b2c3d", "one", false, "default"), item("0000001", "two", true, "x")];
    let list = TodoList::from_items(items.clone()).unwrap();
    assert_eq!(list.into_items(), items);
}

#[test]
fn listing_filters() {
    let list = sample();
    let all = list.list_items(&None, false);
    assert_eq!(all.len(), 3);
    let work = list.list_items(&Some("work".to_string()), false);
    assert_eq!(work.iter().map(|i| i.desc.as_str()).collect::<Vec<_>>(), vec!["two", "three"]);
    let done = list.list_items(&None, true);
    assert_eq!(done.iter().map(|i| i.desc.as_str()).collect::<Vec<_>>(), vec!["three"]);
    assert!(list.list_items(&Some("none".to_string()), false).is_empty());
}

#[test]
fn short_hash_digits() {
    assert_eq!(short_hash(0), "0000000");
    assert_eq!(short_hash(0x1f), "000001f");
    assert_eq!(short_hash(0xabcdef12345), "abcdef1");
    assert_eq!(short_hash(u64::MAX), "fffffff");
    assert_eq!(short_hash(0x1234567), "1234567");
}

#[test]
fn generated_hashes_are_seven_hex_digits() {
    for _ in 0..20 {
        let h = generate_short_hash("desc", &Some("tag".to_string()));
        assert!(is_hex7(&h), "{}", h);
    }
}

#[test]
fn prefix_test() {
    assert!(starts_with("abc", ""));
    assert!(starts_with("abc", "ab"));
    assert!(!starts_with("abc", "abcd"));
    assert!(!starts_with("abc", "b"));
}

#[test]
fn text_helpers() {
    assert_eq!(trim("  a b \n"), "a b");
    assert_eq!(trim("\u{3000}x\u{a0}"), "x");
    assert_eq!(trim("   "), "");
    assert!(blank(" \t\r\n"));
    assert!(blank(""));
    assert!(!blank(" x "));
    let mut s = "n=".to_string();
    append_decimal(&mut s, 1203);
    assert_eq!(s, "n=1203");
}
