//! The subscription store, category labels, and subscription editing.

use near_rss::database::subscriptions::{Subscription, SubscriptionStore};
use near_rss::errors::Errors;
use near_rss::services::Services;

fn fake_subscription(id: &str) -> Subscription {
    Subscription {
        user_id: "user_id".to_owned(),
        id: id.to_owned(),
        url: "url".to_owned(),
        title: "title".to_owned(),
        description: "description".to_owned(),
        feed_url: "feed_url".to_owned(),
        joined_categories: "joined_categories".to_owned(),
        last_fetch_ms: 0,
    }
}

fn same_sub(a: &Subscription, b: &Subscription) -> bool {
    a.user_id == b.user_id && a.id == b.id && a.url == b.url && a.title == b.title
        && a.description == b.description && a.feed_url == b.feed_url
        && a.joined_categories == b.joined_categories && a.last_fetch_ms == b.last_fetch_ms
}

#[test]
fn insert_and_get_subscription_should_succeed() {
    let mut store = SubscriptionStore::new();
    let subscription = fake_subscription("id");
    store.insert_subscription(subscription.duplicate());
    let found = store.get_subscription("user_id", "id").unwrap();
    assert!(same_sub(&found, &subscription));
}

#[test]
fn remove_subscription_should_succeed() {
    let mut store = SubscriptionStore::new();
    store.insert_subscription(fake_subscription("id"));
    store.remove_subscription("user_id", "id");
    assert!(store.get_subscription("user_id", "id").is_none());
}

#[test]
fn update_subscription_should_succeed() {
    let mut store = SubscriptionStore::new();
    store.insert_subscription(fake_subscription("id"));
    let mut updated = fake_subscription("id");
    updated.url = "url_2".to_owned();
    updated.title = "title_2".to_owned();
    updated.description = "description_2".to_owned();
    updated.feed_url = "feed_url_2".to_owned();
    updated.joined_categories = "joined_categories_2".to_owned();
    updated.last_fetch_ms = 1;
    store.update_subscription(updated.duplicate()).unwrap();
    let found = store.get_subscription("user_id", "id").unwrap();
    assert!(same_sub(&found, &updated));
}

#[test]
fn update_of_a_missing_subscription_is_refused() {
    let mut store = SubscriptionStore::new();
    let r = store.update_subscription(fake_subscription("missing"));
    assert!(matches!(r, Err(Errors::SubscriptionNotFound)));
    assert!(store.get_subscription("user_id", "missing").is_none());
}

#[test]
fn list_subscriptions_should_succeed() {
    let mut store = SubscriptionStore::new();
    store.insert_subscription(fake_subscription("id"));
    let mut second = fake_subscription("id_2");
    second.url = "url_2".to_owned();
    store.insert_subscription(second);
    let all = store.list_user_subscriptions("user_id");
    assert_eq!(all.len(), 2);
    assert!(all.iter().any(|s| s.id == "id"));
    assert!(all.iter().any(|s| s.id == "id_2"));
    assert_eq!(store.list_all_subscriptions().len(), 2);
}

#[test]
fn reinserting_the_same_id_does_not_duplicate() {
    let mut store = SubscriptionStore::new();
    store.insert_subscription(fake_subscription("id"));
    let mut renamed = fake_subscription("id");
    renamed.title = "renamed".to_owned();
    store.insert_subscription(renamed);
    let all = store.list_user_subscriptions("user_id");
    assert_eq!(all.len(), 1);
    assert_eq!(all[0].title, "renamed");
}

#[test]
fn categories_split_and_dedup() {
    let mut subscription = fake_subscription("id");
    subscription.joined_categories = String::new();
    assert!(subscription.categories().is_empty());

    subscription.add_categories(&vec!["a".to_owned(), "b".to_owned(), "a".to_owned()]);
    assert_eq!(subscription.categories(), vec!["a", "b"]);

    // an empty label is ignored; an existing one is not duplicated
    subscription.add_categories(&vec!["".to_owned(), "b".to_owned(), "c".to_owned()]);
    assert_eq!(subscription.categories(), vec!["a", "b", "c"]);

    subscription.remove_categories(&vec!["b".to_owned(), "missing".to_owned()]);
    assert_eq!(subscription.categories(), vec!["a", "c"]);
    assert_eq!(subscription.joined_categories, "a,c");
}

#[test]
fn edit_subscription_updates_title_and_labels() {
    let mut services = Services::new();
    let mut sub = fake_subscription("feed/x");
    sub.joined_categories = "keep,drop".to_owned();
    services.subscription_store.insert_subscription(sub);

    services
        .edit_subscription(
            "user_id",
            "feed/x",
            Some("fresh title"),
            &vec!["added".to_owned()],
            &vec!["drop".to_owned()],
        )
        .unwrap();
    let edited = services.subscription_store.get_subscription("user_id", "feed/x").unwrap();
    assert_eq!(edited.title, "fresh title");
    assert_eq!(edited.categories(), vec!["keep", "added"]);

    // editing a missing subscription is a quiet no-op
    services
        .edit_subscription("user_id", "feed/none", None, &vec![], &vec![])
        .unwrap();
    assert!(services.subscription_store.get_subscription("user_id", "feed/none").is_none());
}

#[test]
fn wire_subscription_carries_label_leaves() {
    let mut sub = fake_subscription("feed/x");
    sub.joined_categories = "user/-/label/tech,plain".to_owned();
    let wire = near_rss::services::subscriptions::Subscription::from(sub);
    assert_eq!(wire.id, "feed/x");
    assert_eq!(wire.categories.len(), 2);
    assert_eq!(wire.categories[0].id, "user/-/label/tech");
    assert_eq!(wire.categories[0].label, "tech");
    assert_eq!(wire.categories[1].id, "plain");
    assert_eq!(wire.categories[1].label, "plain");

    let back = wire.to_db("user_id");
    assert_eq!(back.joined_categories, "tech,plain");
    assert_eq!(back.last_fetch_ms, 0);
}
