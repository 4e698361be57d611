//! End-to-end engine scenarios: ingestion across subscriptions, fetch
//! failure isolation, the stream adapter, and tag edits.

use near_rss::common::{PageOption, RETENTION_WINDOW_MS};
use near_rss::database::items::Filter;
use near_rss::database::subscriptions::Subscription as DbSubscription;
use near_rss::services::feeds::{FeedDoc, FeedEntry};
use near_rss::services::stream::Query;
use near_rss::services::subscriptions::FetchResult;
use near_rss::services::Services;

fn subscription(user: &str, id: &str, feed_url: &str) -> DbSubscription {
    DbSubscription {
        user_id: user.to_owned(),
        id: id.to_owned(),
        url: "url".to_owned(),
        title: "title".to_owned(),
        description: String::new(),
        feed_url: feed_url.to_owned(),
        joined_categories: String::new(),
        last_fetch_ms: 0,
    }
}

fn entry(id: &str, published_ms: i64) -> FeedEntry {
    FeedEntry {
        id: id.to_owned(),
        title: Some(format!("title of {}", id)),
        summary: Some(format!("summary of {}", id)),
        authors: vec!["ann".to_owned(), "ben".to_owned()],
        links: vec![format!("https://example.com/{}", id)],
        published_ms: Some(published_ms),
    }
}

fn feed_doc(entries: Vec<FeedEntry>) -> FeedDoc {
    FeedDoc {
        title: Some("a feed".to_owned()),
        description: None,
        links: vec!["https://example.com/".to_owned()],
        entries,
    }
}

const NOW: i64 = 1_700_000_000_000;

#[test]
fn partial_fetch_failure_is_isolated() {
    let mut services = Services::new();
    let subs = vec![
        subscription("u", "feed/a", "https://a.example/rss"),
        subscription("u", "feed/b", "https://b.example/rss"),
        subscription("u", "feed/c", "https://c.example/rss"),
    ];
    for s in subs.iter() {
        services.subscription_store.insert_subscription(s.duplicate());
    }
    // feed b is unreachable this cycle
    let feeds = vec![
        FetchResult { url: "https://a.example/rss".to_owned(), feed: Some(feed_doc(vec![entry("a1", NOW - 100)])) },
        FetchResult { url: "https://b.example/rss".to_owned(), feed: None },
        FetchResult { url: "https://c.example/rss".to_owned(), feed: Some(feed_doc(vec![entry("c1", NOW - 50), entry("c2", NOW - 10)])) },
    ];
    services
        .ingest_feeds(&subs, &feeds, NOW, NOW - RETENTION_WINDOW_MS)
        .unwrap();
    let items = services.item_store.get_items("u", PageOption::<String>::new(10, false)).items;
    let mut got: Vec<(String, String)> = items
        .iter()
        .map(|i| (i.subscription_id.clone(), i.external_id.clone()))
        .collect();
    got.sort();
    assert_eq!(
        got,
        vec![
            ("feed/a".to_owned(), "a1".to_owned()),
            ("feed/c".to_owned(), "c1".to_owned()),
            ("feed/c".to_owned(), "c2".to_owned()),
        ]
    );
}

#[test]
fn extraction_fills_fields_and_drops_stale_entries() {
    let mut services = Services::new();
    let subs = vec![subscription("u", "feed/a", "https://a.example/rss")];
    services.subscription_store.insert_subscription(subs[0].duplicate());
    let stale = entry("stale", NOW - RETENTION_WINDOW_MS - 1);
    let missing_fields = FeedEntry {
        id: "bare".to_owned(),
        title: None,
        summary: None,
        authors: vec![],
        links: vec![],
        published_ms: None,
    };
    let feeds = vec![FetchResult {
        url: "https://a.example/rss".to_owned(),
        feed: Some(feed_doc(vec![entry("fresh", NOW - 5), stale, missing_fields])),
    }];
    services
        .ingest_feeds(&subs, &feeds, NOW, NOW - RETENTION_WINDOW_MS)
        .unwrap();
    let items = services.item_store.get_items("u", PageOption::<String>::new(10, false)).items;
    assert_eq!(items.len(), 2);
    let fresh = items.iter().find(|i| i.external_id == "fresh").unwrap();
    assert_eq!(fresh.title, "title of fresh");
    assert_eq!(fresh.content, "summary of fresh");
    assert_eq!(fresh.author, "ann,ben");
    assert_eq!(fresh.url, "https://example.com/fresh");
    assert_eq!(fresh.created_at_ms, NOW - 5);
    assert!(!fresh.read && !fresh.starred);
    // an entry without a publish time is stamped with the clock
    let bare = items.iter().find(|i| i.external_id == "bare").unwrap();
    assert_eq!(bare.created_at_ms, NOW);
    assert_eq!(bare.title, "");
    assert_eq!(bare.author, "");
    assert_eq!(bare.url, "");
}

#[test]
fn reingesting_a_cycle_adds_nothing() {
    let mut services = Services::new();
    let subs = vec![subscription("u", "feed/a", "https://a.example/rss")];
    services.subscription_store.insert_subscription(subs[0].duplicate());
    let feeds = vec![FetchResult {
        url: "https://a.example/rss".to_owned(),
        feed: Some(feed_doc(vec![entry("a1", NOW - 100), entry("a2", NOW - 50)])),
    }];
    services.ingest_feeds(&subs, &feeds, NOW, 0).unwrap();
    let before = services.item_store.get_items("u", PageOption::<String>::new(10, false)).items.len();
    services.ingest_feeds(&subs, &feeds, NOW, 0).unwrap();
    let after = services.item_store.get_items("u", PageOption::<String>::new(10, false)).items.len();
    assert_eq!(before, 2);
    assert_eq!(after, before);
}

#[test]
fn starred_listing_shows_exactly_the_starred_item() {
    let mut services = Services::new();
    let subs = vec![subscription("u", "feed/a", "https://a.example/rss")];
    services.subscription_store.insert_subscription(subs[0].duplicate());
    let feeds = vec![FetchResult {
        url: "https://a.example/rss".to_owned(),
        feed: Some(feed_doc(vec![entry("a1", NOW - 100), entry("a2", NOW - 50)])),
    }];
    services.ingest_feeds(&subs, &feeds, NOW, 0).unwrap();
    let a1 = services.item_store.get_items("u", PageOption::<String>::new(10, false)).items[0].duplicate();
    let wire_id = vec![a1.id.to_string()];

    services.mark_as_starred("u", &wire_id);
    let starred = services.get_starred_item_ids("u", PageOption::<String>::new(10, false));
    assert_eq!(starred.items.len(), 1);
    assert_eq!(starred.items[0].id, a1.id.to_string());
    let row = &services.item_store.get_items_by_id("u", &vec![a1.id])[0];
    assert!(row.starred);

    services.mark_as_unstarred("u", &wire_id);
    let starred = services.get_starred_item_ids("u", PageOption::<String>::new(10, false));
    assert!(starred.items.is_empty());
}

#[test]
fn edit_tag_maps_tags_to_transitions_and_ignores_unknown_tags() {
    let mut services = Services::new();
    let subs = vec![subscription("u", "feed/a", "https://a.example/rss")];
    services.subscription_store.insert_subscription(subs[0].duplicate());
    let feeds = vec![FetchResult {
        url: "https://a.example/rss".to_owned(),
        feed: Some(feed_doc(vec![entry("a1", NOW - 100)])),
    }];
    services.ingest_feeds(&subs, &feeds, NOW, 0).unwrap();
    let id = services.item_store.get_items("u", PageOption::<String>::new(10, false)).items[0].id;
    let short_ids = vec![format!("{:016x}", id)];

    services.edit_tag("u", &short_ids, Some(&"user/-/state/com.google/read".to_owned()), None);
    assert!(services.item_store.get_items_by_id("u", &vec![id])[0].read);
    services.edit_tag("u", &short_ids, None, Some(&"user/-/state/com.google/read".to_owned()));
    assert!(!services.item_store.get_items_by_id("u", &vec![id])[0].read);
    // an unrecognized tag is accepted and ignored
    services.edit_tag("u", &short_ids, Some(&"user/-/label/whatever".to_owned()), None);
    let row = &services.item_store.get_items_by_id("u", &vec![id])[0];
    assert!(!row.read && !row.starred);
}

#[test]
fn get_item_ids_classifies_the_stream() {
    let mut services = Services::new();
    let subs = vec![subscription("u", "feed/a", "https://a.example/rss")];
    services.subscription_store.insert_subscription(subs[0].duplicate());
    let feeds = vec![FetchResult {
        url: "https://a.example/rss".to_owned(),
        feed: Some(feed_doc(vec![entry("a1", NOW - 100), entry("a2", NOW - 50)])),
    }];
    services.ingest_feeds(&subs, &feeds, NOW, 0).unwrap();
    let ids = services.item_store.get_items("u", PageOption::<String>::new(10, false)).items;
    services.mark_as_read("u", &vec![ids[0].id.to_string()]);

    let unread = services.get_item_ids(
        "u",
        Query {
            s: "user/-/state/com.google/reading-list".to_owned(),
            xt: Some("user/-/state/com.google/read".to_owned()),
            n: None,
            r: None,
            c: None,
        },
    );
    assert_eq!(unread.item_refs.len(), 1);
    assert_eq!(unread.item_refs[0].id, ids[1].id.to_string());
    assert!(unread.continuation.is_none());

    let starred_only = services.get_item_ids(
        "u",
        Query {
            s: "user/-/state/com.google/starred".to_owned(),
            xt: None,
            n: None,
            r: None,
            c: None,
        },
    );
    assert!(starred_only.item_refs.is_empty());

    // newest first by default; oldest first when r is "o"
    let newest_first = services.get_item_ids(
        "u",
        Query { s: String::new(), xt: None, n: None, r: None, c: None },
    );
    assert_eq!(newest_first.item_refs[0].id, ids[1].id.to_string());
    let oldest_first = services.get_item_ids(
        "u",
        Query { s: String::new(), xt: None, n: None, r: Some("o".to_owned()), c: None },
    );
    assert_eq!(oldest_first.item_refs[0].id, ids[0].id.to_string());
    assert_eq!(Filter::from_params("user/-/state/com.google/read", None), Filter::READ);
}

#[test]
fn item_contents_carry_the_origin_and_categories() {
    let mut services = Services::new();
    let subs = vec![subscription("u", "feed/a", "https://a.example/rss")];
    services.subscription_store.insert_subscription(subs[0].duplicate());
    let feeds = vec![FetchResult {
        url: "https://a.example/rss".to_owned(),
        feed: Some(feed_doc(vec![entry("a1", 1_700_000_000_123)])),
    }];
    services.ingest_feeds(&subs, &feeds, NOW, 0).unwrap();
    let id = services.item_store.get_items("u", PageOption::<String>::new(10, false)).items[0].id;

    let contents = services.get_item_contents("u", &vec![id.to_string()]).unwrap();
    assert_eq!(contents.len(), 1);
    let c = &contents[0];
    assert_eq!(c.id, format!("tag:google.com,2005:reader/item/{:016x}", id));
    assert_eq!(c.timestamp_usec, (1_700_000_000_123i64 * 1000).to_string());
    assert_eq!(c.published, 1_700_000_000);
    assert_eq!(c.title, "title of a1");
    assert_eq!(c.summary.direction, "ltr");
    assert_eq!(c.summary.content, "summary of a1");
    assert_eq!(c.origin.stream_id, "feed/a");
    assert_eq!(c.origin.title, "title");
    assert_eq!(
        c.categories,
        vec!["user/-/state/com.google/reading-list", "user/-/state/com.google/fresh"]
    );
    assert_eq!(c.canonical.len(), 1);
    assert_eq!(c.canonical[0].href, "https://example.com/a1");
    assert_eq!(c.alternate[0].type_f.as_deref(), Some("text/html"));
}

#[test]
fn unread_contents_page_through_with_origins() {
    let mut services = Services::new();
    let subs = vec![subscription("u", "feed/a", "https://a.example/rss")];
    services.subscription_store.insert_subscription(subs[0].duplicate());
    let feeds = vec![FetchResult {
        url: "https://a.example/rss".to_owned(),
        feed: Some(feed_doc(vec![
            entry("a1", NOW - 300),
            entry("a2", NOW - 200),
            entry("a3", NOW - 100),
        ])),
    }];
    services.ingest_feeds(&subs, &feeds, NOW, 0).unwrap();
    services.mark_as_read("u", &vec![
        services.item_store.get_items("u", PageOption::<String>::new(10, false)).items[0]
            .id
            .to_string(),
    ]);

    // newest first, two at a time: one full page then the rest
    let first = services
        .get_unread_item_contents(
            "u",
            PageOption::<String> { offset: None, limit: 1, desc: true },
        )
        .unwrap();
    assert_eq!(first.items.len(), 1);
    assert_eq!(first.items[0].title, "title of a3");
    assert_eq!(first.items[0].origin.title, "title");
    let cursor = first.next_page_offset.expect("one unread row remains");
    let second = services
        .get_unread_item_contents(
            "u",
            PageOption::<String> { offset: Some(cursor), limit: 5, desc: true },
        )
        .unwrap();
    assert_eq!(second.items.len(), 1);
    assert_eq!(second.items[0].title, "title of a2");
    assert!(second.next_page_offset.is_none());
}

#[test]
fn clean_up_prunes_below_the_cutoff_only() {
    let mut services = Services::new();
    let subs = vec![subscription("u", "feed/a", "https://a.example/rss")];
    services.subscription_store.insert_subscription(subs[0].duplicate());
    let feeds = vec![FetchResult {
        url: "https://a.example/rss".to_owned(),
        feed: Some(feed_doc(vec![entry("older", NOW - 500), entry("newer", NOW - 5)])),
    }];
    services.ingest_feeds(&subs, &feeds, NOW, 0).unwrap();
    services.clean_up(NOW - 500);
    let items = services.item_store.get_items("u", PageOption::<String>::new(10, false)).items;
    assert_eq!(items.len(), 1);
    assert_eq!(items[0].external_id, "newer");
}

#[test]
fn subscribing_from_a_fetched_feed_is_idempotent() {
    let mut services = Services::new();
    let body = br#"<?xml version="1.0" encoding="utf-8"?>
<feed xmlns="http://www.w3.org/2005/Atom">
  <title>An Atom Feed</title>
  <id>urn:feed-1</id>
  <updated>2024-01-01T00:00:00Z</updated>
  <link href="https://blog.example/"/>
  <entry>
    <id>urn:entry-1</id>
    <title>First post</title>
    <updated>2024-01-01T00:00:00Z</updated>
    <link href="https://blog.example/1"/>
  </entry>
</feed>"#
        .to_vec();
    let url = "https://blog.example/atom.xml";
    let wire = services.add_subscription_from_url("u", url, &body).unwrap();
    assert_eq!(wire.id, format!("feed/{}", url));
    assert_eq!(wire.title, "An Atom Feed");
    assert_eq!(wire.url, "https://blog.example/");
    // subscribing again replaces rather than duplicates
    services.add_subscription_from_url("u", url, &body).unwrap();
    assert_eq!(services.subscription_store.list_user_subscriptions("u").len(), 1);
    // a body that is not a feed is a fetch failure
    let err = services.add_subscription_from_url("u", "https://bad.example/", &b"not a feed".to_vec());
    assert!(matches!(err, Err(near_rss::errors::Errors::FeedFetchFailed { .. })));
}

#[test]
fn loading_from_bodies_runs_a_full_cycle() {
    let mut services = Services::new();
    let body = br#"<?xml version="1.0" encoding="utf-8"?>
<feed xmlns="http://www.w3.org/2005/Atom">
  <title>An Atom Feed</title>
  <id>urn:feed-1</id>
  <updated>2024-01-01T00:00:00Z</updated>
  <entry>
    <id>urn:entry-1</id>
    <title>First post</title>
    <updated>2024-01-01T00:00:00Z</updated>
    <published>2024-01-01T00:00:00Z</published>
    <link href="https://blog.example/1"/>
  </entry>
</feed>"#
        .to_vec();
    let url = "https://blog.example/atom.xml";
    services.add_subscription_from_url("u", url, &body).unwrap();
    let bodies = vec![(url.to_owned(), Some(body))];
    // a cutoff of zero keeps the 2024 entry
    services.load_all_subscription_items(&bodies, NOW, 0).unwrap();
    let items = services.item_store.get_items("u", PageOption::<String>::new(10, false)).items;
    assert_eq!(items.len(), 1);
    assert_eq!(items[0].external_id, "urn:entry-1");
    assert_eq!(items[0].title, "First post");
}

#[test]
fn collect_feed_urls_fetches_shared_urls_once() {
    let subs = vec![
        subscription("u1", "feed/a", "https://a.example/rss"),
        subscription("u2", "feed/a", "https://a.example/rss"),
        subscription("u1", "feed/b", "https://b.example/rss"),
    ];
    let urls = near_rss::services::subscriptions::collect_feed_urls(&subs);
    assert_eq!(urls, vec!["https://a.example/rss", "https://b.example/rss"]);
}
