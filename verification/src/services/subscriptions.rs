//! Subscription management and feed ingestion: wire subscriptions with
//! category objects, item extraction with retention filtering, and the
//! per-subscription isolation of fetch failures.

use vstd::prelude::*;
use crate::database::items::{has_entry, same_entry, with_row_id, Item, ItemView, MAX_TIME_MS};
use crate::database::subscriptions::{has_sub, labels_of, sub_index, sub_key_is, sub_views,
    add_labels, kept_label, SubscriptionView};
use crate::errors::Errors;
use crate::services::feeds::{entry_views, feed_head, fetch_views, outcomes_of, parse_feed,
    parsed_head_of, FeedDoc, FeedDocView, FeedEntryView, FeedHeadView, FetchResultView};
use crate::services::Services;
use crate::text::{join_str, join_with, split_str, str_eq, views_of};

pub use crate::services::feeds::FetchResult;

verus! {

/// One category of a wire subscription.
pub struct Category {
    pub id: String,
    pub label: String,
}

/// A subscription as the wire shows it.
pub struct Subscription {
    pub id: String,
    pub title: String,
    pub description: String,
    pub categories: Vec<Category>,
    pub url: String,
    pub feed_url: String,
}

/// How a wire subscription renders a stored row: category ids are the
/// stored labels, and each label's display form is its last
/// '/'-separated piece.
pub open spec fn is_wire_sub_of(w: Subscription, x: SubscriptionView) -> bool {
    &&& w.id@ == x.id
    &&& w.title@ == x.title
    &&& w.description@ == x.description
    &&& w.url@ == x.url
    &&& w.feed_url@ == x.feed_url
    &&& w.categories@.len() == labels_of(x.joined_categories).len()
    &&& forall|i: int|
        0 <= i < w.categories@.len() ==> {
            let label = labels_of(x.joined_categories)[i];
            &&& (#[trigger] w.categories@[i]).id@ == label
            &&& w.categories@[i].label@ == crate::text::split_on(label, '/').last()
        }
}

/// How the subscription derived from a fetched feed renders the parse
/// outcome's head: id and feed url come from the url, title and
/// description from the feed (empty when absent), the site link from the
/// feed's first link (the url when it has none), and no categories yet.
pub open spec fn is_feed_sub_of(w: Subscription, url: Seq<char>, h: FeedHeadView) -> bool {
    &&& w.id@ == "feed/"@ + url
    &&& w.feed_url@ == url
    &&& w.categories@.len() == 0
    &&& w.title@ == (match h.title {
        Some(t) => t,
        None => Seq::<char>::empty(),
    })
    &&& w.description@ == (match h.description {
        Some(t) => t,
        None => Seq::<char>::empty(),
    })
    &&& w.url@ == (if h.links.len() == 0 {
        url
    } else {
        h.links[0]
    })
}

/// The stored label string of a label list.
pub open spec fn joined_labels(ls: Seq<Seq<char>>) -> Seq<char> {
    if ls.len() == 0 {
        Seq::empty()
    } else {
        join_with(ls, ',')
    }
}

impl Subscription {
    /// The wire rendering of a stored subscription.
    pub fn from(db_subscription: crate::database::subscriptions::Subscription) -> (r: Subscription)
        ensures
            is_wire_sub_of(r, db_subscription@),
    {
        let labels = db_subscription.categories();
        let n = labels.len();
        let mut categories: Vec<Category> = Vec::new();
        let mut i: usize = 0;
        while i < n
            invariant
                0 <= i <= n,
                n == labels@.len(),
                views_of(labels@) == labels_of(db_subscription@.joined_categories),
                categories@.len() == i as int,
                forall|j: int|
                    0 <= j < i ==> {
                        let label = labels_of(db_subscription@.joined_categories)[j];
                        &&& (#[trigger] categories@[j]).id@ == label
                        &&& categories@[j].label@ == crate::text::split_on(label, '/').last()
                    },
            decreases n - i,
        {
            let token = &labels[i];
            let pieces = split_str(token.as_str(), '/');
            proof {
                crate::text::lemma_split_len(token@, '/');
                assert(views_of(pieces@)[pieces@.len() - 1] == crate::text::split_on(
                    token@,
                    '/',
                ).last());
                assert(views_of(labels@)[i as int] == labels@[i as int]@);
            }
            let last = pieces[pieces.len() - 1].clone();
            categories.push(Category { id: token.clone(), label: last });
            i = i + 1;
        }
        Subscription {
            id: db_subscription.id,
            title: db_subscription.title,
            description: db_subscription.description,
            url: db_subscription.url,
            feed_url: db_subscription.feed_url,
            categories,
        }
    }

    /// The stored row of a wire subscription: labels re-joined, the fetch
    /// time cleared.
    pub fn to_db(self, user_id: &str) -> (r: crate::database::subscriptions::Subscription)
        ensures
            r@.user_id == user_id@,
            r@.id == self.id@,
            r@.url == self.url@,
            r@.title == self.title@,
            r@.description == self.description@,
            r@.feed_url == self.feed_url@,
            r@.joined_categories == joined_labels(category_labels(self.categories@)),
            r@.last_fetch_ms == 0,
    {
        let n = self.categories.len();
        let mut labels: Vec<String> = Vec::new();
        let mut i: usize = 0;
        while i < n
            invariant
                0 <= i <= n,
                n == self.categories@.len(),
                views_of(labels@) == category_labels(self.categories@).take(i as int),
            decreases n - i,
        {
            let ghost sofar = views_of(labels@);
            labels.push(self.categories[i].label.clone());
            proof {
                assert(views_of(labels@) =~= sofar.push(self.categories@[i as int].label@));
                assert(category_labels(self.categories@).take(i + 1) =~= category_labels(
                    self.categories@,
                ).take(i as int).push(category_labels(self.categories@)[i as int]));
            }
            i = i + 1;
        }
        proof {
            assert(category_labels(self.categories@).take(n as int) =~= category_labels(
                self.categories@,
            ));
        }
        let joined = if labels.len() == 0 {
            String::new()
        } else {
            proof {
                reveal_strlit(",");
                assert(","@ =~= seq![',']);
            }
            join_str(&labels, ",", ',')
        };
        crate::database::subscriptions::Subscription {
            user_id: user_id.to_owned(),
            id: self.id,
            url: self.url,
            title: self.title,
            description: self.description,
            feed_url: self.feed_url,
            joined_categories: joined,
            last_fetch_ms: 0,
        }
    }

    /// The wire subscription a freshly fetched feed describes: its id is
    /// derived from the feed url, so re-subscribing is idempotent.
    pub fn from_feed(url: &str, feed: FeedDoc) -> (r: Subscription)
        ensures
            r.id@ == "feed/"@ + url@,
            r.title@ == (match feed.title {
                Some(t) => t@,
                None => Seq::<char>::empty(),
            }),
            r.description@ == (match feed.description {
                Some(t) => t@,
                None => Seq::<char>::empty(),
            }),
            r.categories@.len() == 0,
            r.url@ == (if feed.links@.len() == 0 {
                url@
            } else {
                feed.links@[0]@
            }),
            r.feed_url@ == url@,
    {
        let mut id = "feed/".to_owned();
        id.append(url);
        let link = if feed.links.len() == 0 {
            url.to_owned()
        } else {
            feed.links[0].clone()
        };
        Subscription {
            id,
            title: match feed.title {
                Some(t) => t,
                None => String::new(),
            },
            description: match feed.description {
                Some(t) => t,
                None => String::new(),
            },
            categories: Vec::new(),
            url: link,
            feed_url: url.to_owned(),
        }
    }
}

/// The labels of a category list.
pub open spec fn category_labels(cs: Seq<Category>) -> Seq<Seq<char>> {
    cs.map_values(|c: Category| c.label@)
}

// ---------------------------------------------------------------------------
// Item extraction
// ---------------------------------------------------------------------------
/// The publish time an entry gets: its own, or the clock when it has
/// none.
pub open spec fn entry_created(e: FeedEntryView, now: int) -> int {
    match e.published_ms {
        Some(p) => p,
        None => now,
    }
}

/// Whether an entry survives the retention filter (and the timestamp
/// bounds the cursor format forces).
pub open spec fn entry_kept(now: int, cutoff: int) -> spec_fn(FeedEntryView) -> bool {
    |e: FeedEntryView|
        cutoff < entry_created(e, now) && 0 <= entry_created(e, now) && entry_created(e, now)
            <= MAX_TIME_MS as int
}

/// How an extracted item renders an entry: absent optional fields become
/// empty strings, authors are comma-joined, and the first link is the
/// url; the surrogate id is yet to be assigned.
pub open spec fn item_matches_entry(
    x: ItemView,
    e: FeedEntryView,
    u: Seq<char>,
    sid: Seq<char>,
    now: int,
) -> bool {
    &&& x.user_id == u
    &&& x.subscription_id == sid
    &&& x.external_id == e.id
    &&& x.id == 0
    &&& x.title == (match e.title {
        Some(t) => t,
        None => Seq::<char>::empty(),
    })
    &&& x.content == (match e.summary {
        Some(t) => t,
        None => Seq::<char>::empty(),
    })
    &&& x.author == (if e.authors.len() == 0 {
        Seq::<char>::empty()
    } else {
        join_with(e.authors, ',')
    })
    &&& x.url == (if e.links.len() == 0 {
        Seq::<char>::empty()
    } else {
        e.links[0]
    })
    &&& x.created_at_ms == entry_created(e, now)
    &&& x.fetched_at_ms >= 0
    &&& !x.starred
    &&& !x.read
}

/// Builds the items of one fetched feed: one per entry that survives the
/// retention filter, in feed order.
pub fn extract_items_from_feed(
    user_id: &str,
    subscription_id: &str,
    feed: &FeedDoc,
    now_ms: i64,
    cutoff_ms: i64,
) -> (r: Vec<Item>)
    requires
        0 <= now_ms,
    ensures
        ({
            let kept = entry_views(*feed).filter(entry_kept(now_ms as int, cutoff_ms as int));
            &&& r@.len() == kept.len()
            &&& forall|i: int|
                0 <= i < r@.len() ==> item_matches_entry(
                    (#[trigger] r@[i])@,
                    kept[i],
                    user_id@,
                    subscription_id@,
                    now_ms as int,
                )
        }),
{
    let ghost pd = entry_kept(now_ms as int, cutoff_ms as int);
    let ghost evs = entry_views(*feed);
    let n = feed.entries.len();
    let mut out: Vec<Item> = Vec::new();
    let mut i: usize = 0;
    proof {
        assert(evs.take(0) =~= Seq::<FeedEntryView>::empty());
        assert(Seq::<FeedEntryView>::empty().filter(pd) =~= Seq::<FeedEntryView>::empty());
    }
    while i < n
        invariant
            0 <= i <= n,
            0 <= now_ms,
            n == feed.entries@.len(),
            evs == entry_views(*feed),
            pd == entry_kept(now_ms as int, cutoff_ms as int),
            out@.len() == evs.take(i as int).filter(pd).len(),
            forall|j: int|
                0 <= j < out@.len() ==> item_matches_entry(
                    (#[trigger] out@[j])@,
                    evs.take(i as int).filter(pd)[j],
                    user_id@,
                    subscription_id@,
                    now_ms as int,
                ),
        decreases n - i,
    {
        let entry = &feed.entries[i];
        proof {
            assert(entry@ == evs[i as int]);
            assert(evs.take(i + 1) =~= evs.take(i as int).push(evs[i as int]));
            evs.take(i as int).lemma_filter_push(evs[i as int], pd);
            assert(entry_kept(now_ms as int, cutoff_ms as int)(entry@) == ((cutoff_ms as int)
                < entry_created(entry@, now_ms as int) && 0 <= entry_created(entry@, now_ms as int)
                && entry_created(entry@, now_ms as int) <= MAX_TIME_MS as int));
        }
        let created: i64 = match entry.published_ms {
            Some(p) => p,
            None => now_ms,
        };
        if cutoff_ms < created && 0 <= created && created <= MAX_TIME_MS {
            let ghost before = out@;
            let title: &str = match &entry.title {
                Some(t) => t.as_str(),
                None => "",
            };
            let content: &str = match &entry.summary {
                Some(t) => t.as_str(),
                None => "",
            };
            let author = join_authors(&entry.authors);
            let url: &str = if entry.links.len() == 0 {
                ""
            } else {
                entry.links[0].as_str()
            };
            proof {
                reveal_strlit("");
                assert(""@ =~= Seq::<char>::empty());
            }
            let item = Item::new_item(
                user_id,
                subscription_id,
                entry.id.as_str(),
                title,
                content,
                author.as_str(),
                url,
                created,
            );
            proof {
                assert(item_matches_entry(
                    item@,
                    entry@,
                    user_id@,
                    subscription_id@,
                    now_ms as int,
                ));
            }
            out.push(item);
        }
        i = i + 1;
    }
    proof {
        assert(evs.take(n as int) =~= evs);
    }
    out
}

/// Joins author names with commas; empty when there are none.
fn join_authors(authors: &Vec<String>) -> (r: String)
    ensures
        r@ == (if views_of(authors@).len() == 0 {
            Seq::<char>::empty()
        } else {
            join_with(views_of(authors@), ',')
        }),
{
    if authors.len() == 0 {
        String::new()
    } else {
        proof {
            reveal_strlit(",");
            assert(","@ =~= seq![',']);
        }
        join_str(authors, ",", ',')
    }
}

// ---------------------------------------------------------------------------
// Ingestion
// ---------------------------------------------------------------------------
/// The first outcome recorded for a url.
pub open spec fn feed_for(fs: Seq<FetchResultView>, url: Seq<char>) -> Option<FeedDocView>
    decreases fs.len(),
{
    if fs.len() == 0 {
        None
    } else if fs[0].url == url {
        fs[0].feed
    } else {
        feed_for(fs.drop_first(), url)
    }
}

/// The entries of a parsed feed that survive the retention filter.
pub open spec fn kept_entries(doc: FeedDocView, now: int, cutoff: int) -> Seq<FeedEntryView> {
    doc.entries.filter(entry_kept(now, cutoff))
}

/// How many rows one subscription contributes to a cycle: its feed's
/// surviving entries, or none when its url did not fetch and parse.
pub open spec fn sub_kept_count(
    fs: Seq<FetchResultView>,
    sub: SubscriptionView,
    now: int,
    cutoff: int,
) -> int {
    match feed_for(fs, sub.feed_url) {
        Some(doc) => kept_entries(doc, now, cutoff).len() as int,
        None => 0,
    }
}

/// How many rows a whole cycle asks the store to take, at most.
pub open spec fn total_kept(
    svs: Seq<SubscriptionView>,
    fs: Seq<FetchResultView>,
    now: int,
    cutoff: int,
) -> int
    decreases svs.len(),
{
    if svs.len() == 0 {
        0
    } else {
        total_kept(svs.drop_last(), fs, now, cutoff) + sub_kept_count(fs, svs.last(), now, cutoff)
    }
}

/// A cycle's demand is never negative.
pub proof fn lemma_total_kept_nonneg(
    svs: Seq<SubscriptionView>,
    fs: Seq<FetchResultView>,
    now: int,
    cutoff: int,
)
    ensures
        total_kept(svs, fs, now, cutoff) >= 0,
    decreases svs.len(),
{
    if svs.len() > 0 {
        lemma_total_kept_nonneg(svs.drop_last(), fs, now, cutoff);
    }
}

/// One more subscription adds exactly its own contribution.
pub proof fn lemma_total_kept_step(
    svs: Seq<SubscriptionView>,
    fs: Seq<FetchResultView>,
    now: int,
    cutoff: int,
    k: int,
)
    requires
        0 <= k < svs.len(),
    ensures
        total_kept(svs.take(k + 1), fs, now, cutoff) == total_kept(svs.take(k), fs, now, cutoff)
            + sub_kept_count(fs, svs[k], now, cutoff),
{
    assert(svs.take(k + 1).drop_last() =~= svs.take(k));
    assert(svs.take(k + 1).last() == svs[k]);
}

/// A prefix never demands more than the whole cycle.
pub proof fn lemma_total_kept_prefix(
    svs: Seq<SubscriptionView>,
    fs: Seq<FetchResultView>,
    now: int,
    cutoff: int,
    k: int,
)
    requires
        0 <= k <= svs.len(),
    ensures
        total_kept(svs.take(k), fs, now, cutoff) <= total_kept(svs, fs, now, cutoff),
    decreases svs.len() - k,
{
    if k == svs.len() {
        assert(svs.take(k) =~= svs);
    } else {
        lemma_total_kept_step(svs, fs, now, cutoff, k);
        assert(kept_entries(feed_for(fs, svs[k].feed_url).unwrap(), now, cutoff).len() >= 0);
        lemma_total_kept_prefix(svs, fs, now, cutoff, k + 1);
    }
}

/// A row standing for an entry key; only the key fields matter to
/// `has_entry`.
pub open spec fn keyed_row(u: Seq<char>, sid: Seq<char>, ext: Seq<char>) -> ItemView {
    ItemView {
        user_id: u,
        subscription_id: sid,
        external_id: ext,
        id: 0,
        title: Seq::empty(),
        content: Seq::empty(),
        author: Seq::empty(),
        url: Seq::empty(),
        created_at_ms: 0,
        fetched_at_ms: 0,
        starred: false,
        read: false,
    }
}

/// The first recorded feed for a url, if any.
fn find_feed<'a>(feeds: &'a Vec<FetchResult>, url: &str) -> (r: Option<&'a FeedDoc>)
    ensures
        match r {
            Some(d) => feed_for(fetch_views(feeds@), url@) == Some(d@),
            None => feed_for(fetch_views(feeds@), url@) is None,
        },
{
    let ghost fv = fetch_views(feeds@);
    let n = feeds.len();
    let mut i: usize = 0;
    proof {
        assert(fv.skip(0) =~= fv);
    }
    while i < n
        invariant
            0 <= i <= n,
            n == feeds@.len(),
            fv == fetch_views(feeds@),
            feed_for(fv, url@) == feed_for(fv.skip(i as int), url@),
        decreases n - i,
    {
        proof {
            assert(fv.skip(i as int)[0] == feeds@[i as int]@);
            assert(fv.skip(i as int).drop_first() =~= fv.skip(i + 1));
        }
        if str_eq(feeds[i].url.as_str(), url) {
            match &feeds[i].feed {
                Some(d) => {
                    return Some(d);
                },
                None => {
                    return None;
                },
            }
        }
        i = i + 1;
    }
    proof {
        assert(fv.skip(n as int) =~= Seq::<FetchResultView>::empty());
    }
    None
}

/// The feed urls of the subscriptions, each once, first occurrence
/// first: shared urls are fetched once.
pub open spec fn dedup_urls(us: Seq<Seq<char>>) -> Seq<Seq<char>>
    decreases us.len(),
{
    if us.len() == 0 {
        Seq::empty()
    } else {
        let rest = dedup_urls(us.drop_last());
        if rest.contains(us.last()) {
            rest
        } else {
            rest.push(us.last())
        }
    }
}

/// The feed urls of a subscription list.
pub open spec fn feed_urls(subs: Seq<crate::database::subscriptions::Subscription>) -> Seq<
    Seq<char>,
> {
    subs.map_values(|x: crate::database::subscriptions::Subscription| x.feed_url@)
}

/// The distinct feed urls of the subscriptions, in first-appearance
/// order: what one sync cycle fetches.
pub fn collect_feed_urls(subs: &Vec<crate::database::subscriptions::Subscription>) -> (r: Vec<
    String,
>)
    ensures
        views_of(r@) == dedup_urls(feed_urls(subs@)),
{
    let n = subs.len();
    let mut out: Vec<String> = Vec::new();
    let mut i: usize = 0;
    proof {
        assert(feed_urls(subs@).take(0) =~= Seq::<Seq<char>>::empty());
        assert(views_of(out@) =~= Seq::<Seq<char>>::empty());
    }
    while i < n
        invariant
            0 <= i <= n,
            n == subs@.len(),
            views_of(out@) == dedup_urls(feed_urls(subs@).take(i as int)),
        decreases n - i,
    {
        let ghost sofar = views_of(out@);
        proof {
            assert(feed_urls(subs@).take(i + 1).drop_last() =~= feed_urls(subs@).take(i as int));
            assert(feed_urls(subs@).take(i + 1).last() == subs@[i as int].feed_url@);
        }
        if !crate::database::subscriptions::contains_string(&out, subs[i].feed_url.as_str()) {
            out.push(subs[i].feed_url.clone());
            proof {
                assert(views_of(out@) =~= sofar.push(subs@[i as int].feed_url@));
            }
        }
        i = i + 1;
    }
    proof {
        assert(feed_urls(subs@).take(n as int) =~= feed_urls(subs@));
    }
    out
}

/// The stored row that adding a wire subscription writes.
pub open spec fn added_sub_view(u: Seq<char>, w: Subscription) -> SubscriptionView {
    SubscriptionView {
        user_id: u,
        id: w.id@,
        url: w.url@,
        title: w.title@,
        description: w.description@,
        feed_url: w.feed_url@,
        joined_categories: joined_labels(category_labels(w.categories@)),
        last_fetch_ms: 0,
    }
}

/// How an edited row relates to the row before the edit.
pub open spec fn edited_sub(
    v: SubscriptionView,
    before: SubscriptionView,
    title: Option<Seq<char>>,
    adds: Seq<Seq<char>>,
    removes: Seq<Seq<char>>,
) -> bool {
    &&& v.user_id == before.user_id
    &&& v.id == before.id
    &&& v.url == before.url
    &&& v.description == before.description
    &&& v.feed_url == before.feed_url
    &&& v.last_fetch_ms == before.last_fetch_ms
    &&& v.title == (match title {
        Some(t) => t,
        None => before.title,
    })
    &&& labels_of(v.joined_categories) == add_labels(
        labels_of(before.joined_categories).filter(kept_label(removes)),
        adds,
    )
}

/// A field-for-field copy of a wire subscription.
fn duplicate_wire_sub(w: &Subscription) -> (r: Subscription)
    ensures
        r.id@ == w.id@,
        r.title@ == w.title@,
        r.description@ == w.description@,
        r.url@ == w.url@,
        r.feed_url@ == w.feed_url@,
        r.categories@.len() == w.categories@.len(),
        forall|i: int|
            0 <= i < r.categories@.len() ==> (#[trigger] r.categories@[i]).id@
                == w.categories@[i].id@ && r.categories@[i].label@ == w.categories@[i].label@,
{
    let n = w.categories.len();
    let mut categories: Vec<Category> = Vec::new();
    let mut i: usize = 0;
    while i < n
        invariant
            0 <= i <= n,
            n == w.categories@.len(),
            categories@.len() == i as int,
            forall|j: int|
                0 <= j < i ==> (#[trigger] categories@[j]).id@ == w.categories@[j].id@
                    && categories@[j].label@ == w.categories@[j].label@,
        decreases n - i,
    {
        categories.push(
            Category { id: w.categories[i].id.clone(), label: w.categories[i].label.clone() },
        );
        i = i + 1;
    }
    Subscription {
        id: w.id.clone(),
        title: w.title.clone(),
        description: w.description.clone(),
        categories,
        url: w.url.clone(),
        feed_url: w.feed_url.clone(),
    }
}

/// Whether the url of `sub` fetched successfully and its surviving
/// entries include a `j`-th one.
pub open spec fn found_entry_count(
    fs: Seq<FetchResultView>,
    sub: SubscriptionView,
    now: int,
    cutoff: int,
    j: int,
) -> bool {
    &&& feed_for(fs, sub.feed_url) is Some
    &&& 0 <= j < kept_entries(feed_for(fs, sub.feed_url).unwrap(), now, cutoff).len()
}

impl Services {
    /// The wire subscription a fetched body describes; fails with
    /// `FeedFetchFailed` exactly when the body is not a parseable feed.
    pub fn get_subscription_from_url(url: &str, body: &Vec<u8>) -> (r: Result<
        Subscription,
        Errors,
    >)
        ensures
            r is Ok <==> parsed_head_of(body@) is Some,
            match r {
                Ok(w) => is_feed_sub_of(w, url@, parsed_head_of(body@).unwrap()),
                Err(e) => e matches Errors::FeedFetchFailed { url: u2 } && u2@ == url@,
            },
    {
        match parse_feed(body) {
            Some(feed) => {
                let ghost h = feed_head(feed@);
                let w = Subscription::from_feed(url, feed);
                proof {
                    assert(is_feed_sub_of(w, url@, h));
                }
                Ok(w)
            },
            None => Err(Errors::FeedFetchFailed { url: url.to_owned() }),
        }
    }

    /// Stores a wire subscription for the user; re-adding one with the
    /// same id replaces it.
    pub fn add_subscription(&mut self, user_id: &str, subscription: Subscription)
        requires
            old(self).wf(),
        ensures
            final(self).wf(),
            final(self).item_store == old(self).item_store,
            final(self).user_store == old(self).user_store,
            has_sub(final(self).subscription_store.subs(), user_id@, subscription.id@),
            ({
                let s0 = old(self).subscription_store.subs();
                let v = added_sub_view(user_id@, subscription);
                if has_sub(s0, user_id@, subscription.id@) {
                    final(self).subscription_store.subs() == s0.update(
                        sub_index(s0, user_id@, subscription.id@),
                        v,
                    )
                } else {
                    final(self).subscription_store.subs() == s0.push(v)
                }
            }),
    {
        let ghost s0 = self.subscription_store.subs();
        let ghost v = added_sub_view(user_id@, subscription);
        let ghost key_id = subscription.id@;
        let db = subscription.to_db(user_id);
        proof {
            assert(db@ == v);
        }
        self.subscription_store.insert_subscription(db);
        proof {
            if has_sub(s0, user_id@, key_id) {
                let i = sub_index(s0, user_id@, key_id);
                assert(final(self).subscription_store.subs()[i] == v);
                assert(sub_key_is(final(self).subscription_store.subs()[i], user_id@, key_id));
            } else {
                assert(final(self).subscription_store.subs()[s0.len() as int] == v);
                assert(sub_key_is(
                    final(self).subscription_store.subs()[s0.len() as int],
                    user_id@,
                    key_id,
                ));
            }
        }
    }

    /// Subscribes the user to a fetched feed and returns the wire
    /// subscription; fails with `FeedFetchFailed`, storing nothing, when
    /// the body is not a feed.
    pub fn add_subscription_from_url(&mut self, user_id: &str, url: &str, body: &Vec<u8>) -> (r:
        Result<Subscription, Errors>)
        requires
            old(self).wf(),
        ensures
            final(self).wf(),
            final(self).item_store == old(self).item_store,
            final(self).user_store == old(self).user_store,
            r is Ok <==> parsed_head_of(body@) is Some,
            match r {
                Ok(w) => {
                    &&& is_feed_sub_of(w, url@, parsed_head_of(body@).unwrap())
                    &&& has_sub(final(self).subscription_store.subs(), user_id@, w.id@)
                },
                Err(e) => {
                    &&& e matches Errors::FeedFetchFailed { url: u2 } && u2@ == url@
                    &&& final(self).subscription_store == old(self).subscription_store
                },
            },
    {
        match Self::get_subscription_from_url(url, body) {
            Ok(subscription) => {
                let out = duplicate_wire_sub(&subscription);
                self.add_subscription(user_id, subscription);
                Ok(out)
            },
            Err(e) => Err(e),
        }
    }

    /// Drops the user's subscription with the id, if any.
    pub fn remove_subscription(&mut self, user_id: &str, id: &str)
        requires
            old(self).wf(),
        ensures
            final(self).wf(),
            final(self).item_store == old(self).item_store,
            final(self).user_store == old(self).user_store,
            !has_sub(final(self).subscription_store.subs(), user_id@, id@),
            forall|x: SubscriptionView|
                #[trigger] final(self).subscription_store.subs().contains(x) <==> (old(
                    self,
                ).subscription_store.subs().contains(x) && !sub_key_is(x, user_id@, id@)),
    {
        self.subscription_store.remove_subscription(user_id, id);
    }

    /// Every subscription of the user, as the wire shows it.
    pub fn list_subscriptions(&self, user_id: &str) -> (r: Vec<Subscription>)
        requires
            self.wf(),
        ensures
            ({
                let mine = self.subscription_store.subs().filter(
                    crate::database::subscriptions::sub_of_user(user_id@),
                );
                &&& r@.len() == mine.len()
                &&& forall|i: int| 0 <= i < r@.len() ==> is_wire_sub_of(#[trigger] r@[i], mine[i])
            }),
    {
        let subs = self.subscription_store.list_user_subscriptions(user_id);
        let ghost mine = sub_views(subs@);
        let mut rest = subs;
        let ghost orig = rest@;
        let mut out: Vec<Subscription> = Vec::new();
        while rest.len() > 0
            invariant
                out@.len() + rest@.len() == orig.len(),
                rest@ == orig.subrange(out@.len() as int, orig.len() as int),
                forall|i: int|
                    0 <= i < out@.len() ==> is_wire_sub_of(#[trigger] out@[i], orig[i]@),
            decreases rest@.len(),
        {
            let db = rest.remove(0);
            proof {
                assert(db == orig[out@.len() as int]);
            }
            out.push(Subscription::from(db));
            proof {
                assert(rest@ =~= orig.subrange(out@.len() as int, orig.len() as int));
            }
        }
        proof {
            assert(forall|i: int| 0 <= i < orig.len() ==> sub_views(orig)[i] == (#[trigger] orig[i])@);
        }
        out
    }

    /// Edits the user's subscription with the id: overrides the title if
    /// one is given, removes then adds category labels with
    /// deduplication, and stores the result. Editing a missing id changes
    /// nothing.
    pub fn edit_subscription(
        &mut self,
        user_id: &str,
        id: &str,
        title: Option<&str>,
        to_add: &Vec<String>,
        to_remove: &Vec<String>,
    ) -> (r: Result<(), Errors>)
        requires
            old(self).wf(),
            forall|i: int| 0 <= i < to_add@.len() ==> crate::text::sep_free((#[trigger] to_add@[i])@, ','),
        ensures
            final(self).wf(),
            final(self).item_store == old(self).item_store,
            final(self).user_store == old(self).user_store,
            r is Ok,
            ({
                let s0 = old(self).subscription_store.subs();
                let topt: Option<Seq<char>> = match title {
                    Some(t) => Some(t@),
                    None => None,
                };
                if has_sub(s0, user_id@, id@) {
                    let i = sub_index(s0, user_id@, id@);
                    edited_sub(
                        final(self).subscription_store.subs()[i],
                        s0[i],
                        topt,
                        views_of(to_add@),
                        views_of(to_remove@),
                    ) && final(self).subscription_store.subs() == s0.update(
                        i,
                        final(self).subscription_store.subs()[i],
                    )
                } else {
                    final(self).subscription_store == old(self).subscription_store
                }
            }),
    {
        let ghost s0 = self.subscription_store.subs();
        match self.subscription_store.get_subscription(user_id, id) {
            None => Ok(()),
            Some(found) => {
                let mut subscription = found;
                proof {
                    let i = choose|i: int|
                        0 <= i < s0.len() && s0[i] == subscription@;
                    assert(sub_key_is(s0[i], user_id@, id@));
                    let j = sub_index(s0, user_id@, id@);
                    assert(sub_key_is(s0[j], user_id@, id@));
                    assert(i == j) by {
                        if i != j {
                            if i < j {
                                assert(!crate::database::subscriptions::same_sub_key(s0[i], s0[j]));
                            } else {
                                assert(!crate::database::subscriptions::same_sub_key(s0[j], s0[i]));
                            }
                        }
                    }
                }
                match title {
                    Some(new_title) => {
                        subscription.title = new_title.to_owned();
                    },
                    None => {},
                }
                subscription.remove_categories(to_remove);
                subscription.add_categories(to_add);
                let ghost v = subscription@;
                match self.subscription_store.update_subscription(subscription) {
                    Ok(_) => {
                        proof {
                            let i = sub_index(s0, user_id@, id@);
                            assert(edited_sub(
                                v,
                                s0[i],
                                match title {
                                    Some(t) => Some(t@),
                                    None => None,
                                },
                                views_of(to_add@),
                                views_of(to_remove@),
                            ));
                            assert(self.subscription_store.subs() == s0.update(i, v));
                            assert(self.subscription_store.subs()[i] == v);
                        }
                        Ok(())
                    },
                    Err(_) => vstd::pervasive::unreached(),
                }
            },
        }
    }

    /// Ingests fetch outcomes for the given subscriptions: each whose url
    /// fetched and parsed gets its surviving entries inserted; a failed
    /// url skips only its own subscriptions. `StorageError` exactly when
    /// the cycle's demand would exhaust the surrogate-id space.
    pub fn ingest_feeds(
        &mut self,
        subs: &Vec<crate::database::subscriptions::Subscription>,
        feeds: &Vec<FetchResult>,
        now_ms: i64,
        cutoff_ms: i64,
    ) -> (r: Result<(), Errors>)
        requires
            old(self).wf(),
            0 <= now_ms,
        ensures
            final(self).wf(),
            final(self).subscription_store == old(self).subscription_store,
            final(self).user_store == old(self).user_store,
            forall|x: ItemView|
                old(self).item_store.rows().contains(x)
                    ==> #[trigger] final(self).item_store.rows().contains(x),
            cycle_ingested(
                *old(self),
                *final(self),
                sub_views(subs@),
                fetch_views(feeds@),
                now_ms as int,
                cutoff_ms as int,
                r,
            ),
    {
        let ghost fv = fetch_views(feeds@);
        let ghost svs = sub_views(subs@);
        let ghost oldnext = self.item_store.next();
        let n = subs.len();
        let mut k: usize = 0;
        proof {
            assert(svs.take(0) =~= Seq::<SubscriptionView>::empty());
        }
        while k < n
            invariant
                0 <= k <= n,
                0 <= now_ms,
                n == subs@.len(),
                self.wf(),
                self.subscription_store == old(self).subscription_store,
                self.user_store == old(self).user_store,
                fv == fetch_views(feeds@),
                svs == sub_views(subs@),
                oldnext == old(self).item_store.next(),
                self.item_store.next() <= oldnext + total_kept(
                    svs.take(k as int),
                    fv,
                    now_ms as int,
                    cutoff_ms as int,
                ),
                forall|x: ItemView|
                    old(self).item_store.rows().contains(x) ==> #[trigger] self.item_store.rows().contains(
                        x,
                    ),
                forall|k2: int, j: int|
                    0 <= k2 < k && #[trigger] found_entry_count(
                        fv,
                        svs[k2],
                        now_ms as int,
                        cutoff_ms as int,
                        j,
                    ) ==> has_entry(
                        self.item_store.rows(),
                        keyed_row(
                            svs[k2].user_id,
                            svs[k2].id,
                            kept_entries(
                                feed_for(fv, svs[k2].feed_url).unwrap(),
                                now_ms as int,
                                cutoff_ms as int,
                            )[j].id,
                        ),
                    ),
                forall|x: ItemView|
                    #[trigger] self.item_store.rows().contains(x) ==> old(
                        self,
                    ).item_store.rows().contains(x) || exists|k2: int|
                        0 <= k2 < svs.len() && (#[trigger] svs[k2]).user_id == x.user_id
                            && svs[k2].id == x.subscription_id && feed_for(
                            fv,
                            svs[k2].feed_url,
                        ) is Some,
            decreases n - k,
        {
            let ghost rows_before = self.item_store.rows();
            let ghost next_before = self.item_store.next();
            let sub = &subs[k];
            proof {
                assert(svs[k as int] == sub@);
                lemma_total_kept_step(svs, fv, now_ms as int, cutoff_ms as int, k as int);
            }
            match find_feed(feeds, sub.feed_url.as_str()) {
                Some(doc) => {
                    let items = extract_items_from_feed(
                        sub.user_id.as_str(),
                        sub.id.as_str(),
                        doc,
                        now_ms,
                        cutoff_ms,
                    );
                    let ghost kept = kept_entries(doc@, now_ms as int, cutoff_ms as int);
                    let ghost batch = crate::database::items::rows_of(items@);
                    proof {
                        assert(feed_for(fv, svs[k as int].feed_url) == Some(doc@));
                        assert(entry_views(*doc).filter(
                            entry_kept(now_ms as int, cutoff_ms as int),
                        ) == kept);
                        assert(batch.len() == kept.len());
                        assert(sub_kept_count(fv, svs[k as int], now_ms as int, cutoff_ms as int)
                            == kept.len() as int);
                    }
                    let res = self.item_store.insert_items(items);
                    match res {
                        Ok(()) => {
                            proof {
                                assert(self.item_store.next() <= next_before + batch.len());
                                assert forall|k2: int, j: int|
                                    0 <= k2 < k + 1 && #[trigger] found_entry_count(
                                        fv,
                                        svs[k2],
                                        now_ms as int,
                                        cutoff_ms as int,
                                        j,
                                    ) implies has_entry(
                                    self.item_store.rows(),
                                    keyed_row(
                                        svs[k2].user_id,
                                        svs[k2].id,
                                        kept_entries(
                                            feed_for(fv, svs[k2].feed_url).unwrap(),
                                            now_ms as int,
                                            cutoff_ms as int,
                                        )[j].id,
                                    ),
                                ) by {
                                    let doc2 = feed_for(fv, svs[k2].feed_url).unwrap();
                                    let kept2 = kept_entries(
                                        doc2,
                                        now_ms as int,
                                        cutoff_ms as int,
                                    );
                                    let key = keyed_row(
                                        svs[k2].user_id,
                                        svs[k2].id,
                                        kept2[j].id,
                                    );
                                    if k2 < k {
                                        // carried over: the witnessing row is preserved
                                        let w = choose|w: int|
                                            0 <= w < rows_before.len() && same_entry(
                                                #[trigger] rows_before[w],
                                                key,
                                            );
                                        assert(rows_before.contains(rows_before[w]));
                                        assert(self.item_store.rows().contains(rows_before[w]));
                                        let w2 = choose|w2: int|
                                            0 <= w2 < self.item_store.rows().len()
                                                && self.item_store.rows()[w2] == rows_before[w];
                                        assert(same_entry(self.item_store.rows()[w2], key));
                                    } else {
                                        // this subscription's batch entry j
                                        assert(doc2 == doc@);
                                        assert(item_matches_entry(
                                            batch[j],
                                            kept2[j],
                                            svs[k2].user_id,
                                            svs[k2].id,
                                            now_ms as int,
                                        ));
                                        assert(has_entry(self.item_store.rows(), batch[j]));
                                        let w = choose|w: int|
                                            0 <= w < self.item_store.rows().len() && same_entry(
                                                #[trigger] self.item_store.rows()[w],
                                                batch[j],
                                            );
                                        assert(same_entry(self.item_store.rows()[w], key));
                                    }
                                }
                                assert forall|x: ItemView|
                                    #[trigger] self.item_store.rows().contains(x) implies old(
                                    self,
                                ).item_store.rows().contains(x) || exists|k2: int|
                                    0 <= k2 < svs.len() && (#[trigger] svs[k2]).user_id
                                        == x.user_id && svs[k2].id == x.subscription_id
                                        && feed_for(fv, svs[k2].feed_url) is Some by {
                                    if !rows_before.contains(x) {
                                        // fresh from this batch
                                        assert(crate::database::items::from_batch(x, batch));
                                        let j = choose|j: int|
                                            0 <= j < batch.len() && x == with_row_id(
                                                #[trigger] batch[j],
                                                x.id,
                                            );
                                        assert(item_matches_entry(
                                            batch[j],
                                            kept[j],
                                            sub@.user_id,
                                            sub@.id,
                                            now_ms as int,
                                        ));
                                        assert((svs[k as int]).user_id == x.user_id
                                            && svs[k as int].id == x.subscription_id);
                                    }
                                }
                            }
                        },
                        Err(e) => {
                            proof {
                                // only surrogate-id exhaustion fails, and then
                                // the whole cycle's demand overflows too
                                assert(items@.len() > i64::MAX - next_before);
                                lemma_total_kept_prefix(
                                    svs,
                                    fv,
                                    now_ms as int,
                                    cutoff_ms as int,
                                    k + 1,
                                );
                                assert(oldnext + total_kept(
                                    svs,
                                    fv,
                                    now_ms as int,
                                    cutoff_ms as int,
                                ) > i64::MAX);
                            }
                            return Err(e);
                        },
                    }
                },
                None => {
                    proof {
                        assert(feed_for(fv, svs[k as int].feed_url) is None);
                        assert(sub_kept_count(fv, svs[k as int], now_ms as int, cutoff_ms as int)
                            == 0);
                    }
                },
            }
            k = k + 1;
        }
        proof {
            assert(svs.take(n as int) =~= svs);
        }
        Ok(())
    }

    /// One user's sync cycle over fetched bodies: some fetch outcomes
    /// the bodies can stand for exist under which every parsing url's
    /// surviving entries were stored for that user's subscriptions, an
    /// unreachable or unparseable url skipped only its own
    /// subscriptions, and failure means only surrogate-id exhaustion;
    /// beyond that, any new row belongs to one of the user's
    /// subscriptions whose recorded body parses.
    pub fn load_subscription_items(
        &mut self,
        user_id: &str,
        bodies: &Vec<(String, Option<Vec<u8>>)>,
        now_ms: i64,
        cutoff_ms: i64,
    ) -> (r: Result<(), Errors>)
        requires
            old(self).wf(),
            0 <= now_ms,
        ensures
            final(self).wf(),
            final(self).subscription_store == old(self).subscription_store,
            final(self).user_store == old(self).user_store,
            forall|x: ItemView|
                old(self).item_store.rows().contains(x)
                    ==> #[trigger] final(self).item_store.rows().contains(x),
            cycle_ran(
                *old(self),
                *final(self),
                old(self).subscription_store.subs().filter(
                    crate::database::subscriptions::sub_of_user(user_id@),
                ),
                bodies@,
                now_ms as int,
                cutoff_ms as int,
                r,
            ),
            r is Ok ==> cycle_frame(
                *old(self),
                *final(self),
                old(self).subscription_store.subs().filter(
                    crate::database::subscriptions::sub_of_user(user_id@),
                ),
                bodies@,
            ),
    {
        let ghost mine = self.subscription_store.subs().filter(
            crate::database::subscriptions::sub_of_user(user_id@),
        );
        let feeds = parse_bodies(bodies);
        let subs = self.subscription_store.list_user_subscriptions(user_id);
        proof {
            assert(sub_views(subs@) == mine);
        }
        let r = self.ingest_feeds(&subs, &feeds, now_ms, cutoff_ms);
        proof {
            lemma_cycle_ran(
                *old(self),
                *self,
                mine,
                fetch_views(feeds@),
                bodies@,
                now_ms as int,
                cutoff_ms as int,
                r,
            );
        }
        r
    }

    /// The global sync cycle over fetched bodies, across every user's
    /// subscriptions, with the same guarantees as the per-user cycle.
    pub fn load_all_subscription_items(
        &mut self,
        bodies: &Vec<(String, Option<Vec<u8>>)>,
        now_ms: i64,
        cutoff_ms: i64,
    ) -> (r: Result<(), Errors>)
        requires
            old(self).wf(),
            0 <= now_ms,
        ensures
            final(self).wf(),
            final(self).subscription_store == old(self).subscription_store,
            final(self).user_store == old(self).user_store,
            forall|x: ItemView|
                old(self).item_store.rows().contains(x)
                    ==> #[trigger] final(self).item_store.rows().contains(x),
            cycle_ran(
                *old(self),
                *final(self),
                old(self).subscription_store.subs(),
                bodies@,
                now_ms as int,
                cutoff_ms as int,
                r,
            ),
            r is Ok ==> cycle_frame(
                *old(self),
                *final(self),
                old(self).subscription_store.subs(),
                bodies@,
            ),
    {
        let ghost mine = self.subscription_store.subs();
        let feeds = parse_bodies(bodies);
        let subs = self.subscription_store.list_all_subscriptions();
        proof {
            assert(sub_views(subs@) == mine);
        }
        let r = self.ingest_feeds(&subs, &feeds, now_ms, cutoff_ms);
        proof {
            lemma_cycle_ran(
                *old(self),
                *self,
                mine,
                fetch_views(feeds@),
                bodies@,
                now_ms as int,
                cutoff_ms as int,
                r,
            );
        }
        r
    }
}

/// What one cycle of ingestion guarantees for the targeted
/// subscriptions under the fetch outcomes it ran on: on success, every
/// subscription whose url fetched and parsed has each of its surviving
/// entries stored, and nothing appeared beyond the fetched
/// subscriptions' entries; failure carries `StorageError` and arises
/// only when the cycle's demand would exhaust the surrogate-id space.
pub open spec fn cycle_ingested(
    before: Services,
    after: Services,
    svs: Seq<SubscriptionView>,
    fv: Seq<FetchResultView>,
    now: int,
    cutoff: int,
    r: Result<(), Errors>,
) -> bool {
    &&& match r {
        Ok(()) => {
            // every successfully fetched subscription got its surviving
            // entries stored
            &&& forall|k: int, j: int|
                0 <= k < svs.len() && #[trigger] found_entry_count(fv, svs[k], now, cutoff, j)
                    ==> has_entry(
                    after.item_store.rows(),
                    keyed_row(
                        svs[k].user_id,
                        svs[k].id,
                        kept_entries(feed_for(fv, svs[k].feed_url).unwrap(), now, cutoff)[j].id,
                    ),
                )
            // nothing unrelated appeared
            &&& forall|x: ItemView|
                #[trigger] after.item_store.rows().contains(x)
                    ==> before.item_store.rows().contains(x) || exists|k2: int|
                    0 <= k2 < svs.len() && (#[trigger] svs[k2]).user_id == x.user_id && svs[k2].id
                        == x.subscription_id && feed_for(fv, svs[k2].feed_url) is Some
        },
        Err(e) => e is StorageError,
    }
    // failure only on surrogate-id exhaustion
    &&& before.item_store.next() + total_kept(svs, fv, now, cutoff) <= i64::MAX ==> r is Ok
}

/// What one sync cycle over fetched bodies guarantees: some fetch
/// outcomes the bodies can stand for exist under which the cycle behaved
/// exactly as `cycle_ingested` says. The outcomes are existential
/// because the parser may invent entry ids; which urls parsed is still a
/// function of the bodies.
pub open spec fn cycle_ran(
    before: Services,
    after: Services,
    mine: Seq<SubscriptionView>,
    bodies: Seq<(String, Option<Vec<u8>>)>,
    now: int,
    cutoff: int,
    r: Result<(), Errors>,
) -> bool {
    exists|fv: Seq<FetchResultView>|
        #[trigger] outcomes_of(fv, bodies) && cycle_ingested(before, after, mine, fv, now, cutoff, r)
}

/// The bytes-level frame of a successful cycle: every row beyond the
/// old store belongs to one of the targeted subscriptions, and that
/// subscription's recorded body parses.
pub open spec fn cycle_frame(
    before: Services,
    after: Services,
    mine: Seq<SubscriptionView>,
    bodies: Seq<(String, Option<Vec<u8>>)>,
) -> bool {
    forall|x: ItemView|
        #[trigger] after.item_store.rows().contains(x) ==> before.item_store.rows().contains(x)
            || exists|k: int|
            0 <= k < mine.len() && (#[trigger] mine[k]).user_id == x.user_id && mine[k].id
                == x.subscription_id && body_feed_ok(bodies, mine[k].feed_url)
}

/// Packages one ingestion run over parsed bodies into the cycle's
/// guarantees.
proof fn lemma_cycle_ran(
    before: Services,
    after: Services,
    mine: Seq<SubscriptionView>,
    fv: Seq<FetchResultView>,
    bodies: Seq<(String, Option<Vec<u8>>)>,
    now: int,
    cutoff: int,
    r: Result<(), Errors>,
)
    requires
        outcomes_of(fv, bodies),
        cycle_ingested(before, after, mine, fv, now, cutoff, r),
    ensures
        cycle_ran(before, after, mine, bodies, now, cutoff, r),
        r is Ok ==> cycle_frame(before, after, mine, bodies),
{
    assert(outcomes_of(fv, bodies) && cycle_ingested(before, after, mine, fv, now, cutoff, r));
    if r is Ok {
        assert forall|x: ItemView| #[trigger] after.item_store.rows().contains(x) implies
            before.item_store.rows().contains(x) || exists|k: int|
            0 <= k < mine.len() && (#[trigger] mine[k]).user_id == x.user_id && mine[k].id
                == x.subscription_id && body_feed_ok(bodies, mine[k].feed_url) by {
            if !before.item_store.rows().contains(x) {
                let k = choose|k: int|
                    0 <= k < mine.len() && (#[trigger] mine[k]).user_id == x.user_id && mine[k].id
                        == x.subscription_id && feed_for(fv, mine[k].feed_url) is Some;
                lemma_feed_ok_bodies(fv, bodies, mine[k].feed_url);
                assert(0 <= k < mine.len() && mine[k].user_id == x.user_id && mine[k].id
                    == x.subscription_id && body_feed_ok(bodies, mine[k].feed_url));
            }
        }
    }
}

/// Whether the first body recorded for a url is present and parses.
pub open spec fn body_feed_ok(bodies: Seq<(String, Option<Vec<u8>>)>, url: Seq<char>) -> bool
    decreases bodies.len(),
{
    if bodies.len() == 0 {
        false
    } else if bodies[0].0@ == url {
        bodies[0].1 matches Some(b) && parsed_head_of(b@) is Some
    } else {
        body_feed_ok(bodies.drop_first(), url)
    }
}

/// Under outcomes the bodies can stand for, a url's recorded feed is
/// present exactly when its recorded body parses.
proof fn lemma_feed_ok_bodies(
    fv: Seq<FetchResultView>,
    bodies: Seq<(String, Option<Vec<u8>>)>,
    url: Seq<char>,
)
    requires
        outcomes_of(fv, bodies),
    ensures
        feed_for(fv, url) is Some <==> body_feed_ok(bodies, url),
    decreases fv.len(),
{
    if fv.len() > 0 {
        assert(fv[0].url == bodies[0].0@);
        if fv[0].url != url {
            let fv2 = fv.drop_first();
            let b2 = bodies.drop_first();
            assert(outcomes_of(fv2, b2)) by {
                assert forall|i: int| 0 <= i < fv2.len() implies (#[trigger] fv2[i]).url
                    == b2[i].0@ by {
                    assert(fv2[i] == fv[i + 1]);
                    assert(b2[i] == bodies[i + 1]);
                }
                assert forall|i: int|
                    0 <= i < fv2.len() implies ((#[trigger] fv2[i]).feed is Some <==> (b2[i].1
                    matches Some(b) && parsed_head_of(b@) is Some)) by {
                    assert(fv2[i] == fv[i + 1]);
                    assert(b2[i] == bodies[i + 1]);
                    assert(fv[i + 1].feed is Some <==> (bodies[i + 1].1 matches Some(b)
                        && parsed_head_of(b@) is Some));
                }
            }
            lemma_feed_ok_bodies(fv2, b2, url);
        }
    }
}

/// Parses each fetched body; a missing or unparseable one records a
/// failed fetch for its url. The recorded outcomes are ones the bodies
/// can stand for.
fn parse_bodies(bodies: &Vec<(String, Option<Vec<u8>>)>) -> (r: Vec<FetchResult>)
    ensures
        outcomes_of(fetch_views(r@), bodies@),
{
    let n = bodies.len();
    let mut out: Vec<FetchResult> = Vec::new();
    let mut i: usize = 0;
    while i < n
        invariant
            0 <= i <= n,
            n == bodies@.len(),
            out@.len() == i as int,
            forall|j: int|
                0 <= j < i ==> (#[trigger] fetch_views(out@)[j]).url == bodies@[j].0@,
            forall|j: int|
                0 <= j < i ==> ((#[trigger] fetch_views(out@)[j]).feed is Some <==> (
                bodies@[j].1 matches Some(b) && parsed_head_of(b@) is Some)),
        decreases n - i,
    {
        let feed = match &bodies[i].1 {
            Some(body) => parse_feed(body),
            None => None,
        };
        proof {
            assert((match feed {
                Some(d) => true,
                None => false,
            }) <==> (bodies@[i as int].1 matches Some(b) && parsed_head_of(b@) is Some));
        }
        let ghost prev = out@;
        out.push(FetchResult { url: bodies[i].0.clone(), feed });
        proof {
            assert(fetch_views(out@)[i as int] == out@[i as int]@);
            assert((fetch_views(out@)[i as int]).url == bodies@[i as int].0@);
            assert((fetch_views(out@)[i as int]).feed is Some <==> (bodies@[i as int].1
                matches Some(b) && parsed_head_of(b@) is Some));
            assert forall|j: int| 0 <= j < i implies (#[trigger] fetch_views(out@)[j]).url
                == bodies@[j].0@ && ((fetch_views(out@)[j]).feed is Some <==> (bodies@[j].1
                matches Some(b) && parsed_head_of(b@) is Some)) by {
                assert(out@[j] == prev[j]);
                assert(fetch_views(out@)[j] == out@[j]@);
                assert(fetch_views(prev)[j] == prev[j]@);
            }
        }
        i = i + 1;
    }
    out
}

} // verus!
