//! The item store: ingestion, pagination, state transitions, retention.

use near_rss::common::PageOption;
use near_rss::database::items::{Item, ItemStore, State};

fn new_fake_item(external_id: &str, created_at_ms: i64) -> Item {
    Item::new_item(
        "user_id",
        "subscription_id",
        external_id,
        "title",
        "content",
        "author",
        "url",
        created_at_ms,
    )
}

fn externals(items: &[Item]) -> Vec<String> {
    items.iter().map(|i| i.external_id.clone()).collect()
}

#[test]
fn insert_items_should_succeed() {
    let mut store = ItemStore::new();
    let items = vec![
        new_fake_item("1", 1),
        new_fake_item("2", 2),
        new_fake_item("3", 3),
    ];
    store.insert_items(items).unwrap();
    let fetched = store.get_items("user_id", PageOption::<String>::new(10, false)).items;
    assert_eq!(externals(&fetched), vec!["1", "2", "3"]);
    assert!(fetched.iter().all(|i| i.user_id == "user_id" && i.subscription_id == "subscription_id"));
}

#[test]
fn insert_same_items_should_do_nothing() {
    let mut store = ItemStore::new();
    store
        .insert_items(vec![new_fake_item("1", 1), new_fake_item("2", 2)])
        .unwrap();
    // Insert same items again.
    store
        .insert_items(vec![new_fake_item("1", 1), new_fake_item("3", 3)])
        .unwrap();
    let items = store.get_items("user_id", PageOption::<String>::new(10, false)).items;
    assert_eq!(items.len(), 3);

    store.mark_as(items[0].key(), State::READ);
    store
        .insert_items(vec![new_fake_item("1", 1), new_fake_item("3", 3)])
        .unwrap();
    let item = &store.get_items("user_id", PageOption::<String>::new(10, false)).items[0];
    assert!(item.read);
}

#[test]
fn reingesting_changed_content_keeps_the_stored_row() {
    let mut store = ItemStore::new();
    store.insert_items(vec![new_fake_item("1", 1)]).unwrap();
    store.mark_as(
        store.get_items("user_id", PageOption::<String>::new(10, false)).items[0].key(),
        State::STARRED,
    );
    // same key, different title and content
    let changed = Item::new_item(
        "user_id",
        "subscription_id",
        "1",
        "another title",
        "another content",
        "author",
        "url",
        1,
    );
    store.insert_items(vec![changed, new_fake_item("2", 2)]).unwrap();
    let items = store.get_items("user_id", PageOption::<String>::new(10, false)).items;
    assert_eq!(items.len(), 2);
    assert_eq!(items[0].title, "title");
    assert_eq!(items[0].content, "content");
    assert!(items[0].starred);
}

#[test]
fn mark_all_as_read_should_succeed() {
    let mut store = ItemStore::new();
    store
        .insert_items(vec![
            new_fake_item("1", 1),
            new_fake_item("2", 2),
            new_fake_item("3", 3),
        ])
        .unwrap();
    store.mark_all_as_read("user_id");
    assert!(store
        .get_unread_items("user_id", PageOption::<String>::new(10, false))
        .items
        .is_empty());
}

#[test]
fn mark_older_as_read_should_succeed() {
    let mut store = ItemStore::new();
    store
        .insert_items(vec![
            new_fake_item("1", 1),
            new_fake_item("2", 2),
            new_fake_item("3", 3),
        ])
        .unwrap();
    store.mark_older_as_read("user_id", 1);
    let unread = store.get_unread_items("user_id", PageOption::<String>::new(10, false)).items;
    assert_eq!(externals(&unread), vec!["2", "3"]);
    store.mark_older_as_read("user_id", 3);
    assert!(store
        .get_unread_items("user_id", PageOption::<String>::new(10, false))
        .items
        .is_empty());
}

#[test]
fn mark_older_as_read_is_inclusive_at_the_bound() {
    let mut store = ItemStore::new();
    store
        .insert_items(vec![
            new_fake_item("1", 1),
            new_fake_item("2", 2),
            new_fake_item("3", 3),
        ])
        .unwrap();
    store.mark_older_as_read("user_id", 2);
    let unread = store.get_unread_items("user_id", PageOption::<String>::new(10, false)).items;
    assert_eq!(externals(&unread), vec!["3"]);
    store.mark_older_as_read("user_id", 3);
    assert!(store
        .get_unread_items("user_id", PageOption::<String>::new(10, false))
        .items
        .is_empty());
}

#[test]
fn mark_item_should_succeed() {
    let mut store = ItemStore::new();
    store
        .insert_items(vec![
            new_fake_item("1", 1),
            new_fake_item("2", 2),
            new_fake_item("3", 3),
        ])
        .unwrap();
    let items = store.get_items("user_id", PageOption::<String>::new(10, false)).items;
    store.mark_as(items[0].key(), State::STARRED);
    let starred = store.get_starred_items("user_id", PageOption::<String>::new(10, false)).items;
    assert_eq!(externals(&starred), vec!["1"]);
    assert!(starred[0].starred);

    store.mark_as(items[0].key(), State::UNSTARRED);
    assert!(store
        .get_starred_items("user_id", PageOption::<String>::new(10, false))
        .items
        .is_empty());

    store.mark_as(items[2].key(), State::READ);
    assert_eq!(
        externals(&store.get_unread_items("user_id", PageOption::<String>::new(10, false)).items),
        vec!["1", "2"]
    );
    assert_eq!(
        externals(&store.get_read_items("user_id", PageOption::<String>::new(10, false)).items),
        vec!["3"]
    );
    store.mark_as(items[2].key(), State::UNREAD);
    assert_eq!(
        externals(&store.get_items("user_id", PageOption::<String>::new(10, false)).items),
        vec!["1", "2", "3"]
    );
}

#[test]
fn marking_read_twice_is_a_no_op() {
    let mut store = ItemStore::new();
    store.insert_items(vec![new_fake_item("1", 1)]).unwrap();
    let key = store.get_items("user_id", PageOption::<String>::new(10, false)).items[0].key();
    store.mark_as(key, State::READ);
    let once = store.get_items("user_id", PageOption::<String>::new(10, false)).items;
    let key = once[0].key();
    store.mark_as(key, State::READ);
    let twice = store.get_items("user_id", PageOption::<String>::new(10, false)).items;
    assert_eq!(once.len(), twice.len());
    assert_eq!(once[0].read, twice[0].read);
    assert_eq!(once[0].starred, twice[0].starred);
    // unread then read round-trips the flag
    store.mark_as(twice[0].key(), State::UNREAD);
    assert!(!store.get_items("user_id", PageOption::<String>::new(10, false)).items[0].read);
    store.mark_as(twice[0].key(), State::READ);
    assert!(store.get_items("user_id", PageOption::<String>::new(10, false)).items[0].read);
}

#[test]
fn pagination_returns_every_item_exactly_once() {
    let mut store = ItemStore::new();
    let mut batch = Vec::new();
    for i in 0..7i64 {
        batch.push(new_fake_item(&format!("e{}", i), 100 + i));
    }
    store.insert_items(batch).unwrap();

    // limit equal to the count: everything on one page, no cursor
    let full = store.get_items("user_id", PageOption::<String>::new(7, false));
    assert_eq!(full.items.len(), 7);
    assert!(full.next_page_offset.is_none());

    // limit 3, ascending: pages of 3, 3, 1
    let mut seen: Vec<String> = Vec::new();
    let mut offset: Option<String> = None;
    loop {
        let page = store.get_items(
            "user_id",
            PageOption::<String> { offset: offset.clone(), limit: 3, desc: false },
        );
        seen.extend(page.items.iter().map(|i| i.external_id.clone()));
        match page.next_page_offset {
            Some(o) => offset = Some(o),
            None => break,
        }
    }
    assert_eq!(seen, vec!["e0", "e1", "e2", "e3", "e4", "e5", "e6"]);

    // descending pagination covers the same items in reverse
    let mut seen_desc: Vec<String> = Vec::new();
    let mut offset: Option<String> = None;
    loop {
        let page = store.get_items(
            "user_id",
            PageOption::<String> { offset: offset.clone(), limit: 2, desc: true },
        );
        seen_desc.extend(page.items.iter().map(|i| i.external_id.clone()));
        match page.next_page_offset {
            Some(o) => offset = Some(o),
            None => break,
        }
    }
    let mut expected: Vec<String> = seen.clone();
    expected.reverse();
    assert_eq!(seen_desc, expected);
}

#[test]
fn pagination_breaks_timestamp_ties_by_id() {
    let mut store = ItemStore::new();
    store
        .insert_items(vec![
            new_fake_item("a", 5),
            new_fake_item("b", 5),
            new_fake_item("c", 5),
        ])
        .unwrap();
    let first = store.get_items("user_id", PageOption::<String>::new(2, false));
    assert_eq!(externals(&first.items), vec!["a", "b"]);
    let cursor = first.next_page_offset.expect("a third row remains");
    let second = store.get_items(
        "user_id",
        PageOption::<String> { offset: Some(cursor), limit: 2, desc: false },
    );
    assert_eq!(externals(&second.items), vec!["c"]);
    assert!(second.next_page_offset.is_none());
}

#[test]
fn delete_items_prunes_only_old_rows_of_the_user() {
    let mut store = ItemStore::new();
    store
        .insert_items(vec![
            new_fake_item("old", 10),
            new_fake_item("new", 20),
        ])
        .unwrap();
    let other = Item::new_item("other", "s", "x", "t", "c", "a", "u", 5);
    store.insert_items(vec![other]).unwrap();
    store.delete_items("user_id", 10);
    let mine = store.get_items("user_id", PageOption::<String>::new(10, false)).items;
    assert_eq!(externals(&mine), vec!["new"]);
    let theirs = store.get_items("other", PageOption::<String>::new(10, false)).items;
    assert_eq!(externals(&theirs), vec!["x"]);
}

#[test]
fn get_items_by_id_skips_unknown_ids() {
    let mut store = ItemStore::new();
    store
        .insert_items(vec![new_fake_item("1", 1), new_fake_item("2", 2)])
        .unwrap();
    let items = store.get_items("user_id", PageOption::<String>::new(10, false)).items;
    let ids = vec![items[1].id, 424242];
    let found = store.get_items_by_id("user_id", &ids);
    assert_eq!(externals(&found), vec!["2"]);
}

#[test]
fn cursor_round_trips_through_the_store() {
    let item = new_fake_item("1", 123456789);
    let mut store = ItemStore::new();
    store.insert_items(vec![item]).unwrap();
    let stored = store.get_items("user_id", PageOption::<String>::new(10, false)).items;
    let offset = stored[0].as_offset();
    assert_eq!(offset, format!("123456789-{}", stored[0].id));
    let parsed = Item::parse_offset(&offset).unwrap();
    assert_eq!(parsed, (123456789, stored[0].id));
}
