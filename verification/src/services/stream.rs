//! The reader-protocol stream adapter: item listings as wire ids or full
//! contents, and tag edits mapped to store state transitions.

use vstd::prelude::*;
use crate::common::{Page, PageOption};
use crate::database::items::{apply_state, cursor_of, id_listed, listed, offset_parse, rows_of,
    Filter, Item, ItemView, State, MAX_TIME_MS};
use crate::database::subscriptions::{has_sub, sub_key_is, Subscription, SubscriptionView};
use crate::errors::Errors;
use crate::greader::{convert_to_long_form_ids, item_categories, long_id_seq, long_item_id,
    wire_id_decode};
use crate::num::i64_dec_seq;
use crate::services::Services;
use crate::text::{str_ends_with, str_eq, views_of};

pub use crate::database::items::Filter as FilterType;

verus! {

/// One row of an id-only listing answer.
pub struct ItemId {
    pub id: String,
    pub direct_stream_ids: Vec<String>,
    pub timestamp_usec: String,
}

/// How an `ItemId` renders an item row.
pub open spec fn is_item_id_of(w: ItemId, x: ItemView) -> bool {
    &&& w.id@ == i64_dec_seq(x.id)
    &&& w.direct_stream_ids@.len() == 0
    &&& w.timestamp_usec@ == i64_dec_seq(x.created_at_ms * 1000)
}

impl ItemId {
    /// The id-only rendering of an item row.
    pub fn from(item: Item) -> (r: ItemId)
        requires
            0 <= item@.created_at_ms <= MAX_TIME_MS as int,
        ensures
            is_item_id_of(r, item@),
    {
        ItemId {
            id: crate::num::i64_to_dec(item.id),
            direct_stream_ids: Vec::new(),
            timestamp_usec: crate::num::i64_to_dec(item.created_at_ms * 1000),
        }
    }
}

/// A link of an item-content answer.
pub struct Url {
    pub href: String,
    pub type_f: Option<String>,
}

/// The body of an item-content answer.
pub struct Summary {
    pub direction: String,
    pub content: String,
}

/// Where an item came from.
pub struct Origin {
    pub stream_id: String,
    pub title: String,
    pub html_url: String,
}

/// One row of a full-content listing answer.
pub struct ItemContent {
    pub crawl_time_msec: String,
    pub timestamp_usec: String,
    pub id: String,
    pub categories: Vec<String>,
    pub published: i64,
    pub updated: i64,
    pub canonical: Vec<Url>,
    pub alternate: Vec<Url>,
    pub summary: Summary,
    pub title: String,
    pub author: String,
    pub origin: Origin,
}

/// How an `ItemContent` renders an item row and its subscription.
pub open spec fn is_item_content_of(w: ItemContent, x: ItemView, sub: SubscriptionView) -> bool {
    &&& w.crawl_time_msec@ == i64_dec_seq(x.fetched_at_ms)
    &&& w.timestamp_usec@ == i64_dec_seq(x.created_at_ms * 1000)
    &&& w.id@ == long_id_seq(x.id)
    &&& views_of(w.categories@) == item_categories(x.read, x.starred)
    &&& w.published == x.created_at_ms / 1000
    &&& w.updated == x.created_at_ms / 1000
    &&& w.canonical@.len() == 1 && w.canonical@[0].href@ == x.url && w.canonical@[0].type_f
        is None
    &&& w.alternate@.len() == 1 && w.alternate@[0].href@ == x.url && match w.alternate@[0].type_f {
        Some(t) => t@ == "text/html"@,
        None => false,
    }
    &&& w.summary.direction@ == "ltr"@ && w.summary.content@ == x.content
    &&& w.title@ == x.title
    &&& w.author@ == x.author
    &&& w.origin.stream_id@ == x.subscription_id && w.origin.title@ == sub.title
        && w.origin.html_url@ == sub.url
}

impl ItemContent {
    /// The full-content rendering of an item row, with its subscription
    /// supplying the origin fields.
    pub fn from(item: Item, sub: &Subscription) -> (r: ItemContent)
        requires
            0 <= item@.created_at_ms <= MAX_TIME_MS as int,
            0 <= item@.id,
        ensures
            is_item_content_of(r, item@, sub@),
    {
        let published = item.created_at_ms / 1000;
        ItemContent {
            crawl_time_msec: crate::num::i64_to_dec(item.fetched_at_ms),
            timestamp_usec: crate::num::i64_to_dec(item.created_at_ms * 1000),
            id: long_item_id(item.id),
            categories: item.categories(),
            published,
            updated: published,
            canonical: make_canonical(item.url.clone()),
            alternate: make_alternate(item.url),
            summary: Summary { direction: "ltr".to_owned(), content: item.content },
            title: item.title,
            author: item.author,
            origin: Origin {
                stream_id: item.subscription_id,
                title: sub.title.clone(),
                html_url: sub.url.clone(),
            },
        }
    }
}

/// The single canonical link of an item.
fn make_canonical(href: String) -> (r: Vec<Url>)
    ensures
        r@.len() == 1,
        r@[0].href@ == href@,
        r@[0].type_f is None,
{
    let mut v: Vec<Url> = Vec::new();
    v.push(Url { href, type_f: None });
    v
}

/// The single alternate link of an item.
fn make_alternate(href: String) -> (r: Vec<Url>)
    ensures
        r@.len() == 1,
        r@[0].href@ == href@,
        match r@[0].type_f {
            Some(t) => t@ == "text/html"@,
            None => false,
        },
{
    let mut v: Vec<Url> = Vec::new();
    v.push(Url { href, type_f: Some("text/html".to_owned()) });
    v
}

/// An id-only listing answer: the page's rows and the continuation
/// cursor, if more pages remain.
pub struct ItemIds {
    pub item_refs: Vec<ItemId>,
    pub continuation: Option<String>,
}

impl ItemIds {
    /// Repackages a page of wire ids.
    pub fn from(page: Page<ItemId, String>) -> (r: ItemIds)
        ensures
            r.item_refs == page.items,
            r.continuation == page.next_page_offset,
    {
        ItemIds { item_refs: page.items, continuation: page.next_page_offset }
    }
}

/// The well-known category suffixes a stream request is classified by.
pub open spec fn from_params_spec(s: Seq<char>, xt: Option<Seq<char>>) -> Filter {
    if ends_with(s, "/state/com.google/starred"@) {
        Filter::STARRED
    } else if ends_with(s, "/state/com.google/read"@) {
        Filter::READ
    } else if xt is Some && ends_with(xt.unwrap(), "/state/com.google/read"@) {
        Filter::UNREAD
    } else {
        Filter::ALL
    }
}

/// Whether `s` ends with `p`.
pub open spec fn ends_with(s: Seq<char>, p: Seq<char>) -> bool {
    s.len() >= p.len() && s.subrange(s.len() - p.len(), s.len() as int) == p
}

impl Filter {
    /// Classifies the stream id and exclude target of a listing request;
    /// unrecognized combinations read everything.
    pub fn from_params(s: &str, xt: Option<&str>) -> (r: Filter)
        ensures
            r == from_params_spec(
                s@,
                match xt {
                    Some(x) => Some(x@),
                    None => None,
                },
            ),
    {
        if str_ends_with(s, "/state/com.google/starred") {
            Filter::STARRED
        } else if str_ends_with(s, "/state/com.google/read") {
            Filter::READ
        } else {
            let unread = match xt {
                Some(x) => str_ends_with(x, "/state/com.google/read"),
                None => false,
            };
            if unread {
                Filter::UNREAD
            } else {
                Filter::ALL
            }
        }
    }
}

/// A listing request's query parameters, as the protocol names them.
pub struct Query {
    pub s: String,
    pub xt: Option<String>,
    pub n: Option<usize>,
    pub r: Option<String>,
    pub c: Option<String>,
}

/// Whether every listed row's wire id renders the matching item row.
pub open spec fn ids_page_matches(r: Vec<ItemId>, l: Seq<ItemView>, limit: int) -> bool {
    let shown = if l.len() > limit {
        l.take(limit)
    } else {
        l
    };
    &&& r@.len() == shown.len()
    &&& forall|i: int| 0 <= i < r@.len() ==> is_item_id_of(#[trigger] r@[i], shown[i])
}

impl Services {
    /// Maps a page of items to wire ids, keeping the cursor.
    fn page_to_item_ids(page: Page<Item, String>) -> (r: Page<ItemId, String>)
        requires
            forall|i: int|
                0 <= i < page.items@.len() ==> 0 <= (#[trigger] page.items@[i])@.created_at_ms
                    <= MAX_TIME_MS as int,
        ensures
            r.items@.len() == page.items@.len(),
            forall|i: int|
                0 <= i < r.items@.len() ==> is_item_id_of(
                    #[trigger] r.items@[i],
                    rows_of(page.items@)[i],
                ),
            r.next_page_offset == page.next_page_offset,
    {
        let mut rest = page.items;
        let ghost orig = rest@;
        let mut out: Vec<ItemId> = Vec::new();
        while rest.len() > 0
            invariant
                out@.len() + rest@.len() == orig.len(),
                rest@ == orig.subrange(out@.len() as int, orig.len() as int),
                forall|i: int|
                    0 <= i < orig.len() ==> 0 <= (#[trigger] orig[i])@.created_at_ms
                        <= MAX_TIME_MS as int,
                forall|i: int|
                    0 <= i < out@.len() ==> is_item_id_of(#[trigger] out@[i], orig[i]@),
            decreases rest@.len(),
        {
            let it = rest.remove(0);
            proof {
                assert(it == orig[out@.len() as int]);
            }
            out.push(ItemId::from(it));
            proof {
                assert(rest@ =~= orig.subrange(out@.len() as int, orig.len() as int));
            }
        }
        proof {
            assert(forall|i: int|
                0 <= i < orig.len() ==> rows_of(orig)[i] == (#[trigger] orig[i])@);
        }
        Page::<ItemId, String> { items: out, next_page_offset: page.next_page_offset }
    }

    /// Lists a page of the user's rows under a filter, as wire ids.
    pub fn get_item_ids_filtered(
        &self,
        user_id: &str,
        filter: Filter,
        page_option: PageOption<String>,
    ) -> (r: Page<ItemId, String>)
        requires
            self.wf(),
        ensures
            ({
                let l = listed(
                    self.item_store.rows(),
                    user_id@,
                    filter,
                    cursor_of(page_option.offset),
                    page_option.desc,
                );
                &&& ids_page_matches(r.items, l, page_option.limit as int)
                &&& if l.len() > page_option.limit {
                    match r.next_page_offset {
                        Some(o) => offset_parse(o@) == Some(
                            (
                                l[page_option.limit as int].created_at_ms,
                                l[page_option.limit as int].id,
                            ),
                        ),
                        None => false,
                    }
                } else {
                    r.next_page_offset is None
                }
            }),
    {
        let ghost l = listed(
            self.item_store.rows(),
            user_id@,
            filter,
            cursor_of(page_option.offset),
            page_option.desc,
        );
        let ghost limit = page_option.limit as int;
        let page = self.item_store.get_items_filtered(user_id, filter, page_option);
        proof {
            assert forall|i: int|
                0 <= i < page.items@.len() implies 0 <= (#[trigger] page.items@[i])@.created_at_ms
                <= MAX_TIME_MS as int && 0 <= page.items@[i]@.id by {
                assert(rows_of(page.items@)[i] == page.items@[i]@);
                assert(self.item_store.rows().contains(rows_of(page.items@)[i]));
                let j = choose|j: int|
                    0 <= j < self.item_store.rows().len()
                        && self.item_store.rows()[j] == rows_of(page.items@)[i];
            }
            if l.len() > limit {
                let x = l[limit];
                crate::seqs::lemma_filter_element_of(
                    if page_option.desc {
                        self.item_store.rows().reverse()
                    } else {
                        self.item_store.rows()
                    },
                    crate::database::items::passing(
                        user_id@,
                        filter,
                        cursor_of(page_option.offset),
                        page_option.desc,
                    ),
                    limit,
                );
                let base = if page_option.desc {
                    self.item_store.rows().reverse()
                } else {
                    self.item_store.rows()
                };
                let j = choose|j: int| 0 <= j < base.len() && base[j] == x;
                if page_option.desc {
                    assert(self.item_store.rows()[base.len() - 1 - j] == x);
                }
                let k = choose|k: int|
                    0 <= k < self.item_store.rows().len() && self.item_store.rows()[k] == x;
                crate::database::items::lemma_offset_round_trip(x.created_at_ms, x.id);
            }
        }
        let ghost next0 = page.next_page_offset;
        let r = Self::page_to_item_ids(page);
        proof {
            let shown = if l.len() > limit {
                l.take(limit)
            } else {
                l
            };
            assert(forall|i: int|
                0 <= i < r.items@.len() ==> rows_of(page.items@)[i] == shown[i]);
        }
        r
    }

    /// Lists a page of the user's unread rows as wire ids.
    pub fn get_unread_item_ids(&self, user_id: &str, page_option: PageOption<String>) -> (r: Page<
        ItemId,
        String,
    >)
        requires
            self.wf(),
        ensures
            ids_page_matches(
                r.items,
                listed(
                    self.item_store.rows(),
                    user_id@,
                    Filter::UNREAD,
                    cursor_of(page_option.offset),
                    page_option.desc,
                ),
                page_option.limit as int,
            ),
    {
        self.get_item_ids_filtered(user_id, Filter::UNREAD, page_option)
    }

    /// Lists a page of the user's read rows as wire ids.
    pub fn get_read_item_ids(&self, user_id: &str, page_option: PageOption<String>) -> (r: Page<
        ItemId,
        String,
    >)
        requires
            self.wf(),
        ensures
            ids_page_matches(
                r.items,
                listed(
                    self.item_store.rows(),
                    user_id@,
                    Filter::READ,
                    cursor_of(page_option.offset),
                    page_option.desc,
                ),
                page_option.limit as int,
            ),
    {
        self.get_item_ids_filtered(user_id, Filter::READ, page_option)
    }

    /// Lists a page of the user's starred rows as wire ids.
    pub fn get_starred_item_ids(&self, user_id: &str, page_option: PageOption<String>) -> (r: Page<
        ItemId,
        String,
    >)
        requires
            self.wf(),
        ensures
            ids_page_matches(
                r.items,
                listed(
                    self.item_store.rows(),
                    user_id@,
                    Filter::STARRED,
                    cursor_of(page_option.offset),
                    page_option.desc,
                ),
                page_option.limit as int,
            ),
    {
        self.get_item_ids_filtered(user_id, Filter::STARRED, page_option)
    }

    /// Lists a page of all the user's rows as wire ids.
    pub fn get_all_item_ids(&self, user_id: &str, page_option: PageOption<String>) -> (r: Page<
        ItemId,
        String,
    >)
        requires
            self.wf(),
        ensures
            ids_page_matches(
                r.items,
                listed(
                    self.item_store.rows(),
                    user_id@,
                    Filter::ALL,
                    cursor_of(page_option.offset),
                    page_option.desc,
                ),
                page_option.limit as int,
            ),
    {
        self.get_item_ids_filtered(user_id, Filter::ALL, page_option)
    }

    /// The id-listing endpoint: classifies the stream and exclude
    /// parameters, defaults the page size to 100, reads newest first
    /// unless `r` is `"o"`, and resumes from the cursor `c`.
    pub fn get_item_ids(&self, user_id: &str, query: Query) -> (r: ItemIds)
        requires
            self.wf(),
        ensures
            ({
                let f = from_params_spec(
                    query.s@,
                    match query.xt {
                        Some(x) => Some(x@),
                        None => None,
                    },
                );
                let limit = match query.n {
                    Some(n) => n as int,
                    None => 100,
                };
                let desc = match query.r {
                    Some(o) => o@ != "o"@,
                    None => true,
                };
                let l = listed(self.item_store.rows(), user_id@, f, cursor_of(query.c), desc);
                &&& ids_page_matches(r.item_refs, l, limit)
                &&& if l.len() > limit {
                    match r.continuation {
                        Some(o) => offset_parse(o@) == Some(
                            (l[limit].created_at_ms, l[limit].id),
                        ),
                        None => false,
                    }
                } else {
                    r.continuation is None
                }
            }),
    {
        let desc = match &query.r {
            Some(o) => !str_eq(o.as_str(), "o"),
            None => true,
        };
        let limit = match query.n {
            Some(n) => n,
            None => 100,
        };
        let filter = Filter::from_params(
            query.s.as_str(),
            match &query.xt {
                Some(x) => Some(x.as_str()),
                None => None,
            },
        );
        let page_option = PageOption::<String> { offset: query.c, limit, desc };
        let page = self.get_item_ids_filtered(user_id, filter, page_option);
        ItemIds::from(page)
    }

    /// Resolves a batch of wire ids to full item contents; unknown ids
    /// are simply absent. The origin fields come from each item's
    /// subscription, which must be stored.
    pub fn get_item_contents(&self, user_id: &str, ids: &Vec<String>) -> (r: Result<
        Vec<ItemContent>,
        Errors,
    >)
        requires
            self.wf(),
        ensures
            ({
                let sel = crate::database::items::selected_rows(
                    self.item_store.rows(),
                    user_id@,
                    decoded_ids(ids@),
                );
                match r {
                    Ok(out) => {
                        &&& out@.len() == sel.len()
                        &&& forall|i: int|
                            0 <= i < out@.len() ==> content_witnessed(
                                self.subscription_store.subs(),
                                user_id@,
                                #[trigger] out@[i],
                                sel[i],
                            )
                    },
                    Err(e) => {
                        &&& e is SubscriptionNotFound
                        &&& some_origin_missing(self.subscription_store.subs(), user_id@, sel)
                    },
                }
            }),
    {
        let decoded = decode_ids(ids);
        let items = self.item_store.get_items_by_id(user_id, &decoded);
        let ghost sel = crate::database::items::selected_rows(
            self.item_store.rows(),
            user_id@,
            decoded_ids(ids@),
        );
        proof {
            assert forall|j: int| 0 <= j < sel.len() implies self.item_store.rows().contains(
                #[trigger] sel[j],
            ) by {
                crate::seqs::lemma_filter_element_of(
                    self.item_store.rows(),
                    crate::database::items::id_selected(user_id@, decoded_ids(ids@)),
                    j,
                );
            }
        }
        let n = items.len();
        let mut out: Vec<ItemContent> = Vec::new();
        let mut i: usize = 0;
        while i < n
            invariant
                0 <= i <= n,
                n == items@.len(),
                self.wf(),
                sel == crate::database::items::selected_rows(
                    self.item_store.rows(),
                    user_id@,
                    decoded_ids(ids@),
                ),
                rows_of(items@) == sel,
                forall|j: int|
                    0 <= j < sel.len() ==> self.item_store.rows().contains(#[trigger] sel[j]),
                out@.len() == i as int,
                forall|j: int|
                    0 <= j < i ==> content_witnessed(
                        self.subscription_store.subs(),
                        user_id@,
                        #[trigger] out@[j],
                        sel[j],
                    ),
            decreases n - i,
        {
            let it = &items[i];
            proof {
                assert(it@ == sel[i as int]);
                assert(self.item_store.rows().contains(sel[i as int]));
                let j = choose|j: int|
                    0 <= j < self.item_store.rows().len()
                        && self.item_store.rows()[j] == sel[i as int];
            }
            match self.subscription_store.get_subscription(user_id, it.subscription_id.as_str()) {
                Some(sub) => {
                    out.push(ItemContent::from(it.duplicate(), &sub));
                    proof {
                        lemma_content_witnessed(
                            self.subscription_store.subs(),
                            user_id@,
                            out@[i as int],
                            sel[i as int],
                            sub@,
                        );
                    }
                },
                None => {
                    proof {
                        lemma_origin_missing(
                            self.subscription_store.subs(),
                            user_id@,
                            sel,
                            i as int,
                        );
                    }
                    return Err(Errors::SubscriptionNotFound);
                },
            }
            i = i + 1;
        }
        Ok(out)
    }

    /// One page of the user's unread rows, rendered with full contents;
    /// the continuation cursor passes through from the listing. The
    /// origin fields come from each item's subscription, which must be
    /// stored.
    #[verifier::loop_isolation(false)]
    pub fn get_unread_item_contents(&self, user_id: &str, page_option: PageOption<String>) -> (r:
        Result<Page<ItemContent, String>, Errors>)
        requires
            self.wf(),
        ensures
            ({
                let l = listed(
                    self.item_store.rows(),
                    user_id@,
                    Filter::UNREAD,
                    cursor_of(page_option.offset),
                    page_option.desc,
                );
                let shown = if l.len() > page_option.limit {
                    l.take(page_option.limit as int)
                } else {
                    l
                };
                match r {
                    Ok(page) => {
                        &&& page.items@.len() == shown.len()
                        &&& forall|i: int|
                            0 <= i < page.items@.len() ==> content_witnessed(
                                self.subscription_store.subs(),
                                user_id@,
                                #[trigger] page.items@[i],
                                shown[i],
                            )
                        &&& if l.len() > page_option.limit {
                            match page.next_page_offset {
                                Some(o) => o@ == crate::database::items::offset_seq(
                                    l[page_option.limit as int].created_at_ms,
                                    l[page_option.limit as int].id,
                                ),
                                None => false,
                            }
                        } else {
                            page.next_page_offset is None
                        }
                    },
                    Err(e) => {
                        &&& e is SubscriptionNotFound
                        &&& some_origin_missing(self.subscription_store.subs(), user_id@, shown)
                    },
                }
            }),
    {
        let ghost l = listed(
            self.item_store.rows(),
            user_id@,
            Filter::UNREAD,
            cursor_of(page_option.offset),
            page_option.desc,
        );
        let ghost limit = page_option.limit as int;
        let listing = self.item_store.get_unread_items(user_id, page_option);
        let ghost shown = if l.len() > limit {
            l.take(limit)
        } else {
            l
        };
        proof {
            assert(rows_of(listing.items@) == shown);
        }
        let n = listing.items.len();
        let mut out: Vec<ItemContent> = Vec::new();
        let mut i: usize = 0;
        while i < n
            invariant
                0 <= i <= n,
                n == listing.items@.len(),
                self.wf(),
                rows_of(listing.items@) == shown,
                forall|j: int|
                    0 <= j < shown.len() ==> self.item_store.rows().contains(#[trigger] shown[j]),
                out@.len() == i as int,
                forall|j: int|
                    0 <= j < i ==> content_witnessed(
                        self.subscription_store.subs(),
                        user_id@,
                        #[trigger] out@[j],
                        shown[j],
                    ),
            decreases n - i,
        {
            let it = &listing.items[i];
            proof {
                assert(it@ == shown[i as int]);
                assert(self.item_store.rows().contains(shown[i as int]));
                let j = choose|j: int|
                    0 <= j < self.item_store.rows().len()
                        && self.item_store.rows()[j] == shown[i as int];
            }
            match self.subscription_store.get_subscription(user_id, it.subscription_id.as_str()) {
                Some(sub) => {
                    out.push(ItemContent::from(it.duplicate(), &sub));
                    proof {
                        lemma_content_witnessed(
                            self.subscription_store.subs(),
                            user_id@,
                            out@[i as int],
                            shown[i as int],
                            sub@,
                        );
                    }
                },
                None => {
                    proof {
                        lemma_origin_missing(
                            self.subscription_store.subs(),
                            user_id@,
                            shown,
                            i as int,
                        );
                    }
                    return Err(Errors::SubscriptionNotFound);
                },
            }
            i = i + 1;
        }
        Ok(Page::<ItemContent, String> { items: out, next_page_offset: listing.next_page_offset })
    }

    /// Marks the rows the wire ids name as read.
    pub fn mark_as_read(&mut self, user_id: &str, ids: &Vec<String>)
        requires
            old(self).wf(),
        ensures
            final(self).wf(),
            marked(*old(self), *final(self), user_id@, decoded_ids(ids@), State::READ),
    {
        let decoded = decode_ids(ids);
        self.item_store.mark_items_as(user_id, &decoded, State::READ);
    }

    /// Marks the rows the wire ids name as unread.
    pub fn mark_as_unread(&mut self, user_id: &str, ids: &Vec<String>)
        requires
            old(self).wf(),
        ensures
            final(self).wf(),
            marked(*old(self), *final(self), user_id@, decoded_ids(ids@), State::UNREAD),
    {
        let decoded = decode_ids(ids);
        self.item_store.mark_items_as(user_id, &decoded, State::UNREAD);
    }

    /// Stars the rows the wire ids name.
    pub fn mark_as_starred(&mut self, user_id: &str, ids: &Vec<String>)
        requires
            old(self).wf(),
        ensures
            final(self).wf(),
            marked(*old(self), *final(self), user_id@, decoded_ids(ids@), State::STARRED),
    {
        let decoded = decode_ids(ids);
        self.item_store.mark_items_as(user_id, &decoded, State::STARRED);
    }

    /// Unstars the rows the wire ids name.
    pub fn mark_as_unstarred(&mut self, user_id: &str, ids: &Vec<String>)
        requires
            old(self).wf(),
        ensures
            final(self).wf(),
            marked(*old(self), *final(self), user_id@, decoded_ids(ids@), State::UNSTARRED),
    {
        let decoded = decode_ids(ids);
        self.item_store.mark_items_as(user_id, &decoded, State::UNSTARRED);
    }

    /// The tag-edit endpoint: long-forms the ids, then applies the one
    /// transition the add or remove tag names; an unrecognized tag is
    /// accepted and ignored.
    pub fn edit_tag(&mut self, user_id: &str, ids: &Vec<String>, a: Option<&String>, r: Option<
        &String,
    >)
        requires
            old(self).wf(),
        ensures
            final(self).wf(),
            ({
                match edit_tag_action(
                    match a {
                        Some(t) => Some(t@),
                        None => None,
                    },
                    match r {
                        Some(t) => Some(t@),
                        None => None,
                    },
                ) {
                    Some(st) => marked(
                        *old(self),
                        *final(self),
                        user_id@,
                        decoded_long_ids(ids@),
                        st,
                    ),
                    None => *final(self) == *old(self),
                }
            }),
    {
        let long = convert_to_long_form_ids(ids);
        proof {
            assert(decoded_ids(long@) =~= decoded_long_ids(ids@));
        }
        match a {
            Some(to_add) => {
                if str_eq(to_add.as_str(), "user/-/state/com.google/read") {
                    self.mark_as_read(user_id, &long);
                } else if str_eq(to_add.as_str(), "user/-/state/com.google/starred") {
                    self.mark_as_starred(user_id, &long);
                }
            },
            None => {
                match r {
                    Some(to_remove) => {
                        if str_eq(to_remove.as_str(), "user/-/state/com.google/read") {
                            self.mark_as_unread(user_id, &long);
                        } else if str_eq(
                            to_remove.as_str(),
                            "user/-/state/com.google/starred",
                        ) {
                            self.mark_as_unstarred(user_id, &long);
                        }
                    },
                    None => {},
                }
            },
        }
    }

    /// Retention pruning across every user.
    pub fn clean_up(&mut self, earlier_than: i64)
        requires
            old(self).wf(),
        ensures
            final(self).wf(),
            final(self).item_store.rows() == old(self).item_store.rows().filter(
                crate::database::items::keep_fresh(earlier_than as int),
            ),
            final(self).subscription_store == old(self).subscription_store,
            final(self).user_store == old(self).user_store,
    {
        self.item_store.prune_all(earlier_than);
    }
}

/// Whether some stored subscription of the user witnesses the content
/// row's origin fields.
pub open spec fn content_witnessed(
    subsv: Seq<SubscriptionView>,
    u: Seq<char>,
    w: ItemContent,
    x: ItemView,
) -> bool {
    exists|sub: SubscriptionView|
        #![trigger sub_key_is(sub, u, x.subscription_id)]
        subsv.contains(sub) && sub_key_is(sub, u, x.subscription_id) && is_item_content_of(
            w,
            x,
            sub,
        )
}

/// Introduces `content_witnessed` from a concrete subscription.
pub proof fn lemma_content_witnessed(
    subsv: Seq<SubscriptionView>,
    u: Seq<char>,
    w: ItemContent,
    x: ItemView,
    sub: SubscriptionView,
)
    requires
        subsv.contains(sub),
        sub_key_is(sub, u, x.subscription_id),
        is_item_content_of(w, x, sub),
    ensures
        content_witnessed(subsv, u, w, x),
{
    assert(sub_key_is(sub, u, x.subscription_id));
}

/// Whether the content row renders some row of the selection.
pub open spec fn witnessed_in(
    subsv: Seq<SubscriptionView>,
    u: Seq<char>,
    w: ItemContent,
    sel: Seq<ItemView>,
) -> bool {
    exists|j: int| 0 <= j < sel.len() && content_witnessed(subsv, u, w, #[trigger] sel[j])
}

/// Introduces `witnessed_in` from a concrete position.
pub proof fn lemma_witnessed_in(
    subsv: Seq<SubscriptionView>,
    u: Seq<char>,
    w: ItemContent,
    sel: Seq<ItemView>,
    j: int,
)
    requires
        0 <= j < sel.len(),
        content_witnessed(subsv, u, w, sel[j]),
    ensures
        witnessed_in(subsv, u, w, sel),
{
    assert(0 <= j < sel.len() && content_witnessed(subsv, u, w, sel[j]));
}

/// Whether some selected row's subscription is missing from the store.
pub open spec fn some_origin_missing(
    subsv: Seq<SubscriptionView>,
    u: Seq<char>,
    sel: Seq<ItemView>,
) -> bool {
    exists|i: int| 0 <= i < sel.len() && !has_sub(subsv, u, (#[trigger] sel[i]).subscription_id)
}

/// Introduces `some_origin_missing` from a concrete position.
pub proof fn lemma_origin_missing(
    subsv: Seq<SubscriptionView>,
    u: Seq<char>,
    sel: Seq<ItemView>,
    i: int,
)
    requires
        0 <= i < sel.len(),
        !has_sub(subsv, u, sel[i].subscription_id),
    ensures
        some_origin_missing(subsv, u, sel),
{
    assert(0 <= i < sel.len() && !has_sub(subsv, u, (#[trigger] sel[i]).subscription_id));
}

/// What decoding each wire id of a batch yields.
pub open spec fn decoded_ids(ids: Seq<String>) -> Seq<i64> {
    ids.map_values(|s: String| wire_id_decode(s@) as i64)
}

/// What the long forms of a batch of short ids decode to.
pub open spec fn decoded_long_ids(ids: Seq<String>) -> Seq<i64> {
    Seq::new(ids.len(), |i: int| wire_id_decode(crate::greader::wire_prefix() + ids[i]@) as i64)
}

/// Which transition a tag-edit request asks for, if any.
pub open spec fn edit_tag_action(a: Option<Seq<char>>, r: Option<Seq<char>>) -> Option<State> {
    match a {
        Some(t) => if t == "user/-/state/com.google/read"@ {
            Some(State::READ)
        } else if t == "user/-/state/com.google/starred"@ {
            Some(State::STARRED)
        } else {
            None
        },
        None => match r {
            Some(t) => if t == "user/-/state/com.google/read"@ {
                Some(State::UNREAD)
            } else if t == "user/-/state/com.google/starred"@ {
                Some(State::UNSTARRED)
            } else {
                None
            },
            None => None,
        },
    }
}

/// What a bulk state transition did to the engine: the named rows of the
/// user rewritten, everything else untouched.
pub open spec fn marked(
    before: Services,
    after: Services,
    u: Seq<char>,
    dec: Seq<i64>,
    st: State,
) -> bool {
    &&& after.item_store.next() == before.item_store.next()
    &&& after.item_store.rows().len() == before.item_store.rows().len()
    &&& forall|i: int|
        0 <= i < before.item_store.rows().len() ==> after.item_store.rows()[i] == {
            let x = #[trigger] before.item_store.rows()[i];
            if x.user_id == u && id_listed(dec, x.id) {
                apply_state(x, st)
            } else {
                x
            }
        }
    &&& after.subscription_store == before.subscription_store
    &&& after.user_store == before.user_store
}

/// Sorts content rows newest first, keeping exactly the same rows.
pub fn sort_contents_desc(v: Vec<ItemContent>) -> (r: Vec<ItemContent>)
    ensures
        r@.to_multiset() == v@.to_multiset(),
        r@.len() == v@.len(),
        forall|i: int, j: int|
            0 <= i < j < r@.len() ==> (#[trigger] r@[i]).published >= (#[trigger] r@[j]).published,
{
    broadcast use vstd::seq_lib::group_to_multiset_ensures;
    broadcast use vstd::multiset::group_multiset_axioms;

    let ghost orig = v@;
    let mut rest = v;
    let mut out: Vec<ItemContent> = Vec::new();
    proof {
        assert(out@.to_multiset().add(rest@.to_multiset()) =~= orig.to_multiset());
    }
    while rest.len() > 0
        invariant
            out@.to_multiset().add(rest@.to_multiset()) =~= orig.to_multiset(),
            out@.len() + rest@.len() == orig.len(),
            forall|i: int, j: int|
                0 <= i < j < out@.len() ==> (#[trigger] out@[i]).published
                    >= (#[trigger] out@[j]).published,
        decreases rest@.len(),
    {
        let ghost rest0 = rest@;
        let ghost out0 = out@;
        let it = rest.remove(0);
        proof {
            assert(rest@ =~= rest0.remove(0));
            vstd::seq_lib::to_multiset_remove(rest0, 0);
            assert(rest0[0] == it);
        }
        let m = out.len();
        let mut p: usize = 0;
        loop
            invariant
                0 <= p <= m,
                m == out@.len(),
                forall|q: int| 0 <= q < p ==> (#[trigger] out@[q]).published >= it.published,
            ensures
                0 <= p <= m,
                forall|q: int| 0 <= q < p ==> (#[trigger] out@[q]).published >= it.published,
                p == m || out@[p as int].published < it.published,
            decreases m - p,
        {
            if p == m {
                break;
            }
            if out[p].published < it.published {
                break;
            }
            p = p + 1;
        }
        let ghost itg = it;
        out.insert(p, it);
        proof {
            assert(out@ =~= out0.insert(p as int, itg));
            vstd::seq_lib::to_multiset_insert(out0, p as int, itg);
            vstd::seq_lib::to_multiset_contains(rest0, itg);
            assert(rest0.contains(itg)) by {
                assert(rest0[0] == itg);
            }
            assert(out0.to_multiset().insert(itg).add(rest0.to_multiset().remove(itg))
                =~= out0.to_multiset().add(rest0.to_multiset()));
            let now = out@;
            assert forall|i: int, j: int| 0 <= i < j < now.len() implies (#[trigger] now[i]).published
                >= (#[trigger] now[j]).published by {
                if j < p {
                } else if i == p {
                    assert(now[j] == out0[j - 1]);
                    assert(p as int == j - 1 || out0[p as int].published >= out0[j - 1].published);
                } else if j == p {
                    assert(now[i] == out0[i]);
                } else if i < p && j > p {
                    assert(now[i] == out0[i] && now[j] == out0[j - 1]);
                    assert(p as int == j - 1 || out0[p as int].published >= out0[j - 1].published);
                } else {
                    assert(now[i] == out0[i - 1] && now[j] == out0[j - 1]);
                }
            }
        }
    }
    proof {
        assert(rest@ =~= Seq::<ItemContent>::empty());
        assert(out@.to_multiset().add(vstd::multiset::Multiset::<ItemContent>::empty())
            =~= out@.to_multiset());
        assert(out@.to_multiset().len() == orig.to_multiset().len());
    }
    out
}

impl Services {
    /// The content endpoint: long-forms the client's short ids, resolves
    /// them, and returns the contents newest first.
    pub fn get_contents(&self, user_id: &str, ids: &Vec<String>) -> (r: Result<
        Vec<ItemContent>,
        Errors,
    >)
        requires
            self.wf(),
        ensures
            match r {
                Ok(out) => {
                    &&& forall|i: int, j: int|
                        0 <= i < j < out@.len() ==> (#[trigger] out@[i]).published
                            >= (#[trigger] out@[j]).published
                    &&& ({
                        let sel = crate::database::items::selected_rows(
                            self.item_store.rows(),
                            user_id@,
                            decoded_long_ids(ids@),
                        );
                        &&& out@.len() == sel.len()
                        &&& forall|i: int|
                            0 <= i < out@.len() ==> witnessed_in(
                                self.subscription_store.subs(),
                                user_id@,
                                #[trigger] out@[i],
                                sel,
                            )
                    })
                },
                Err(e) => {
                    &&& e is SubscriptionNotFound
                    &&& some_origin_missing(
                        self.subscription_store.subs(),
                        user_id@,
                        crate::database::items::selected_rows(
                            self.item_store.rows(),
                            user_id@,
                            decoded_long_ids(ids@),
                        ),
                    )
                },
            },
    {
        broadcast use vstd::seq_lib::group_to_multiset_ensures;

        let long = convert_to_long_form_ids(ids);
        proof {
            assert(decoded_ids(long@) =~= decoded_long_ids(ids@));
        }
        match self.get_item_contents(user_id, &long) {
            Ok(contents) => {
                let ghost sel = crate::database::items::selected_rows(
                    self.item_store.rows(),
                    user_id@,
                    decoded_long_ids(ids@),
                );
                proof {
                    assert(sel == crate::database::items::selected_rows(
                        self.item_store.rows(),
                        user_id@,
                        decoded_ids(long@),
                    ));
                }
                let ghost before = contents@;
                proof {
                    assert forall|i2: int| 0 <= i2 < before.len() implies content_witnessed(
                        self.subscription_store.subs(),
                        user_id@,
                        #[trigger] before[i2],
                        sel[i2],
                    ) by {
                        assert(content_witnessed(
                            self.subscription_store.subs(),
                            user_id@,
                            contents@[i2],
                            sel[i2],
                        ));
                    }
                }
                let sorted = sort_contents_desc(contents);
                proof {
                    assert forall|i: int| 0 <= i < sorted@.len() implies witnessed_in(
                        self.subscription_store.subs(),
                        user_id@,
                        #[trigger] sorted@[i],
                        sel,
                    ) by {
                        vstd::seq_lib::to_multiset_contains(sorted@, sorted@[i]);
                        vstd::seq_lib::to_multiset_contains(before, sorted@[i]);
                        assert(before.contains(sorted@[i]));
                        let k = choose|k: int| 0 <= k < before.len() && before[k] == sorted@[i];
                        lemma_witnessed_in(
                            self.subscription_store.subs(),
                            user_id@,
                            sorted@[i],
                            sel,
                            k,
                        );
                    }
                }
                Ok(sorted)
            },
            Err(e) => {
                proof {
                    let sel1 = crate::database::items::selected_rows(
                        self.item_store.rows(),
                        user_id@,
                        decoded_ids(long@),
                    );
                    let sel2 = crate::database::items::selected_rows(
                        self.item_store.rows(),
                        user_id@,
                        decoded_long_ids(ids@),
                    );
                    assert(sel2 == sel1);
                    let i = choose|i: int|
                        0 <= i < sel1.len() && !has_sub(
                            self.subscription_store.subs(),
                            user_id@,
                            (#[trigger] sel1[i]).subscription_id,
                        );
                    lemma_origin_missing(self.subscription_store.subs(), user_id@, sel2, i);
                }
                Err(e)
            },
        }
    }
}

/// Decodes each wire id of a batch; unreadable ids become the sentinel.
fn decode_ids(ids: &Vec<String>) -> (r: Vec<i64>)
    ensures
        r@ == decoded_ids(ids@),
{
    let n = ids.len();
    let mut out: Vec<i64> = Vec::new();
    let mut i: usize = 0;
    while i < n
        invariant
            0 <= i <= n,
            n == ids@.len(),
            out@ == decoded_ids(ids@).take(i as int),
        decreases n - i,
    {
        out.push(Item::id_str_to_i64(ids[i].as_str()));
        proof {
            assert(out@ =~= decoded_ids(ids@).take(i + 1));
        }
        i = i + 1;
    }
    proof {
        assert(decoded_ids(ids@).take(n as int) =~= decoded_ids(ids@));
    }
    out
}

} // verus!
