//! The parsed-feed model the engine extracts items from, and the trusted
//! edge that turns fetched bytes into it.

use vstd::prelude::*;

verus! {

/// One entry of a parsed feed: exactly the fields extraction reads.
pub struct FeedEntry {
    pub id: String,
    pub title: Option<String>,
    pub summary: Option<String>,
    pub authors: Vec<String>,
    pub links: Vec<String>,
    pub published_ms: Option<i64>,
}

/// The mathematical value of a `FeedEntry`.
pub ghost struct FeedEntryView {
    pub id: Seq<char>,
    pub title: Option<Seq<char>>,
    pub summary: Option<Seq<char>>,
    pub authors: Seq<Seq<char>>,
    pub links: Seq<Seq<char>>,
    pub published_ms: Option<int>,
}

impl View for FeedEntry {
    type V = FeedEntryView;

    open spec fn view(&self) -> FeedEntryView {
        FeedEntryView {
            id: self.id@,
            title: match self.title {
                Some(t) => Some(t@),
                None => None,
            },
            summary: match self.summary {
                Some(t) => Some(t@),
                None => None,
            },
            authors: self.authors@.map_values(|s: String| s@),
            links: self.links@.map_values(|s: String| s@),
            published_ms: match self.published_ms {
                Some(p) => Some(p as int),
                None => None,
            },
        }
    }
}

/// A parsed feed document: exactly the fields the engine reads.
pub struct FeedDoc {
    pub title: Option<String>,
    pub description: Option<String>,
    pub links: Vec<String>,
    pub entries: Vec<FeedEntry>,
}

/// The mathematical value of a `FeedDoc`.
pub ghost struct FeedDocView {
    pub title: Option<Seq<char>>,
    pub description: Option<Seq<char>>,
    pub links: Seq<Seq<char>>,
    pub entries: Seq<FeedEntryView>,
}

impl View for FeedDoc {
    type V = FeedDocView;

    open spec fn view(&self) -> FeedDocView {
        FeedDocView {
            title: match self.title {
                Some(t) => Some(t@),
                None => None,
            },
            description: match self.description {
                Some(t) => Some(t@),
                None => None,
            },
            links: self.links@.map_values(|s: String| s@),
            entries: self.entries@.map_values(|e: FeedEntry| e@),
        }
    }
}

/// The entry views of a parsed feed.
pub open spec fn entry_views(d: FeedDoc) -> Seq<FeedEntryView> {
    d@.entries
}

/// The feed-level fields of a parse outcome: the part that is a
/// function of the bytes alone. Entry ids are left out on purpose: the
/// parser invents one (falling back to a freshly generated UUID) for an
/// entry that carries neither an id nor a link, so the entries may
/// differ between two parses of the same bytes.
pub ghost struct FeedHeadView {
    pub title: Option<Seq<char>>,
    pub description: Option<Seq<char>>,
    pub links: Seq<Seq<char>>,
}

/// The deterministic head of a parsed feed.
pub open spec fn feed_head(dv: FeedDocView) -> FeedHeadView {
    FeedHeadView { title: dv.title, description: dv.description, links: dv.links }
}

/// What parsing a body yields, entries aside: whether the bytes parse as
/// a feed at all, and the feed's own title, description and links, are
/// functions of the bytes, so they carry a name the contracts downstream
/// can speak of.
pub uninterp spec fn parsed_head_of(body: Seq<u8>) -> Option<FeedHeadView>;

/// One url's fetch outcome, as a sync cycle records it.
pub struct FetchResult {
    pub url: String,
    pub feed: Option<FeedDoc>,
}

/// The mathematical value of a `FetchResult`.
pub ghost struct FetchResultView {
    pub url: Seq<char>,
    pub feed: Option<FeedDocView>,
}

impl View for FetchResult {
    type V = FetchResultView;

    open spec fn view(&self) -> FetchResultView {
        FetchResultView {
            url: self.url@,
            feed: match self.feed {
                Some(d) => Some(d@),
                None => None,
            },
        }
    }
}

/// The views of a vector of fetch outcomes.
pub open spec fn fetch_views(v: Seq<FetchResult>) -> Seq<FetchResultView> {
    v.map_values(|f: FetchResult| f@)
}

/// Whether a recorded fetch-outcome sequence is one the given bodies can
/// stand for: urls match position by position, and a parsed feed is
/// recorded exactly where a body is present and parses. Which entries
/// each feed carries is not pinned: the parser may invent entry ids.
pub open spec fn outcomes_of(fv: Seq<FetchResultView>, bodies: Seq<(String, Option<Vec<u8>>)>)
    -> bool {
    &&& fv.len() == bodies.len()
    &&& forall|i: int|
        0 <= i < fv.len() ==> (#[trigger] fv[i]).url == bodies[i].0@
    &&& forall|i: int|
        0 <= i < fv.len() ==> ((#[trigger] fv[i]).feed is Some <==> (bodies[i].1 matches Some(b)
            && parsed_head_of(b@) is Some))
}

#[verifier::external_type_specification]
#[verifier::external_body]
pub struct ExEntry(feed_rs::model::Entry);

/// Relies on feed_rs's entry model: moves the fields extraction reads,
/// converting the publish time through chrono's `timestamp_millis` and an
/// absent author name to an empty string.
#[verifier::external_body]
fn entry_doc(e: feed_rs::model::Entry) -> FeedEntry {
    FeedEntry {
        id: e.id,
        title: e.title.map(|t| t.content),
        summary: e.summary.map(|t| t.content),
        authors: e.authors.into_iter().map(|p| p.name.unwrap_or_default()).collect(),
        links: e.links.into_iter().map(|l| l.href).collect(),
        published_ms: e.published.map(|d| d.timestamp_millis()),
    }
}

/// Relies on `feed_rs::parser::parse`: reads an RSS/Atom/JSON feed out of
/// raw bytes; `None` when the bytes are not a feed. Only the fields the
/// engine reads are kept. Success and the feed-level title, description
/// and links are functions of the bytes, named by `parsed_head_of`; the
/// entries are not equated across calls, because the parser generates a
/// fresh id (a random UUID at worst) for an entry without one.
#[verifier::external_body]
pub(crate) fn parse_feed(body: &Vec<u8>) -> (r: Option<FeedDoc>)
    ensures
        match r {
            Some(d) => parsed_head_of(body@) == Some(feed_head(d@)),
            None => parsed_head_of(body@) is None,
        },
{
    match feed_rs::parser::parse(&body[..]) {
        Ok(f) => Some(
            FeedDoc {
                title: f.title.map(|t| t.content),
                description: f.description.map(|t| t.content),
                links: f.links.into_iter().map(|l| l.href).collect(),
                entries: f.entries.into_iter().map(entry_doc).collect(),
            },
        ),
        Err(_) => None,
    }
}

} // verus!
