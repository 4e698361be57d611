//! Feed items and the item store: idempotent ingestion keyed by
//! `(user_id, subscription_id, external_id)`, cursor-based pagination
//! ordered by `(created_at_ms, id)`, state mutation and retention pruning.

use vstd::prelude::*;
use vstd::seq_lib::*;
use crate::common::{current_time_ms, Page, PageOption};
use crate::errors::Errors;
use crate::num::{all_dec_digits, dec_seq, dec_val, lemma_dec_seq_round_trip, is_dec_digit,
    parse_u64_dec, i64_to_dec};
use crate::seqs::{lemma_filter_all_false, lemma_filter_all_true, lemma_filter_element_of,
    lemma_filter_pairwise, lemma_filter_split};
use crate::text::{join_with, lemma_split_join, split_on, split_str, str_eq};

verus! {

/// Timestamps are capped so that microsecond renderings stay in `i64`.
pub const MAX_TIME_MS: i64 = 9_223_372_036_854_775;

/// The key of one item row: the owning user, its subscription, and the
/// engine-assigned surrogate id.
pub struct ItemId {
    pub user_id: String,
    pub subscription_id: String,
    pub id: i64,
}

/// One stored feed entry of one user.
pub struct Item {
    pub user_id: String,
    pub subscription_id: String,
    pub external_id: String,
    pub id: i64,
    pub title: String,
    pub content: String,
    pub author: String,
    pub url: String,
    pub created_at_ms: i64,
    pub fetched_at_ms: i64,
    pub starred: bool,
    pub read: bool,
}

/// The mathematical value of an `Item`.
pub ghost struct ItemView {
    pub user_id: Seq<char>,
    pub subscription_id: Seq<char>,
    pub external_id: Seq<char>,
    pub id: int,
    pub title: Seq<char>,
    pub content: Seq<char>,
    pub author: Seq<char>,
    pub url: Seq<char>,
    pub created_at_ms: int,
    pub fetched_at_ms: int,
    pub starred: bool,
    pub read: bool,
}

impl View for Item {
    type V = ItemView;

    open spec fn view(&self) -> ItemView {
        ItemView {
            user_id: self.user_id@,
            subscription_id: self.subscription_id@,
            external_id: self.external_id@,
            id: self.id as int,
            title: self.title@,
            content: self.content@,
            author: self.author@,
            url: self.url@,
            created_at_ms: self.created_at_ms as int,
            fetched_at_ms: self.fetched_at_ms as int,
            starred: self.starred,
            read: self.read,
        }
    }
}

/// Two rows stand for the same feed entry of the same user.
pub open spec fn same_entry(a: ItemView, b: ItemView) -> bool {
    a.user_id == b.user_id && a.subscription_id == b.subscription_id && a.external_id
        == b.external_id
}

/// Whether some row of `s` stands for the same entry as `x`.
pub open spec fn has_entry(s: Seq<ItemView>, x: ItemView) -> bool {
    exists|i: int| 0 <= i < s.len() && same_entry(#[trigger] s[i], x)
}

/// The strict ordering of rows: by timestamp, ties broken by id.
pub open spec fn key_lt(a: ItemView, b: ItemView) -> bool {
    a.created_at_ms < b.created_at_ms || (a.created_at_ms == b.created_at_ms && a.id < b.id)
}

impl ItemView {
    /// `self` with the fields that ingestion assigns.
    pub open spec fn with_id(self, id: int, fetched_at_ms: int) -> ItemView {
        ItemView { id, fetched_at_ms, ..self }
    }

    /// Same fields, id and flags aside: what idempotent re-ingestion keeps.
    pub open spec fn same_content(self, other: ItemView) -> bool {
        &&& same_entry(self, other)
        &&& self.title == other.title
        &&& self.content == other.content
        &&& self.author == other.author
        &&& self.url == other.url
        &&& self.created_at_ms == other.created_at_ms
        &&& self.starred == other.starred
        &&& self.read == other.read
    }
}

impl Item {
    /// A new unread, unstarred item; the surrogate id is assigned later,
    /// by the store.
    pub fn new_item(
        user_id: &str,
        subscription_id: &str,
        external_id: &str,
        title: &str,
        content: &str,
        author: &str,
        url: &str,
        created_at_ms: i64,
    ) -> (r: Item)
        ensures
            r@ == (ItemView {
                user_id: user_id@,
                subscription_id: subscription_id@,
                external_id: external_id@,
                id: 0,
                title: title@,
                content: content@,
                author: author@,
                url: url@,
                created_at_ms: created_at_ms as int,
                fetched_at_ms: r@.fetched_at_ms,
                starred: false,
                read: false,
            }),
            r@.fetched_at_ms >= 0,
    {
        Item {
            user_id: user_id.to_owned(),
            subscription_id: subscription_id.to_owned(),
            external_id: external_id.to_owned(),
            id: 0,
            title: title.to_owned(),
            content: content.to_owned(),
            author: author.to_owned(),
            url: url.to_owned(),
            created_at_ms,
            fetched_at_ms: current_time_ms(),
            starred: false,
            read: false,
        }
    }

    /// The key of this row.
    pub fn key(&self) -> (r: ItemId)
        ensures
            r.user_id@ == self@.user_id,
            r.subscription_id@ == self@.subscription_id,
            r.id == self@.id,
    {
        ItemId {
            user_id: self.user_id.clone(),
            subscription_id: self.subscription_id.clone(),
            id: self.id,
        }
    }

    /// A field-for-field copy.
    pub fn duplicate(&self) -> (r: Item)
        ensures
            r@ == self@,
    {
        Item {
            user_id: self.user_id.clone(),
            subscription_id: self.subscription_id.clone(),
            external_id: self.external_id.clone(),
            id: self.id,
            title: self.title.clone(),
            content: self.content.clone(),
            author: self.author.clone(),
            url: self.url.clone(),
            created_at_ms: self.created_at_ms,
            fetched_at_ms: self.fetched_at_ms,
            starred: self.starred,
            read: self.read,
        }
    }
}

// ---------------------------------------------------------------------------
// Pagination cursors
// ---------------------------------------------------------------------------
/// The wire rendering of a cursor: `"<created_at_ms>-<id>"`.
pub open spec fn offset_seq(created_at_ms: int, id: int) -> Seq<char> {
    dec_seq(created_at_ms as nat) + seq!['-'] + dec_seq(id as nat)
}

/// What parsing a cursor yields: the two '-'-separated decimal fields.
pub open spec fn offset_parse(s: Seq<char>) -> Option<(int, int)> {
    let parts = split_on(s, '-');
    if parts.len() == 2 && parts[0].len() > 0 && all_dec_digits(parts[0]) && dec_val(parts[0])
        <= i64::MAX && parts[1].len() > 0 && all_dec_digits(parts[1]) && dec_val(parts[1])
        <= i64::MAX {
        Some((dec_val(parts[0]) as int, dec_val(parts[1]) as int))
    } else {
        None
    }
}

impl Item {
    /// The cursor that resumes a listing just past this row.
    pub fn as_offset(&self) -> (r: String)
        requires
            self@.created_at_ms >= 0,
            self@.id >= 0,
        ensures
            r@ == offset_seq(self@.created_at_ms, self@.id),
    {
        proof {
            reveal_strlit("-");
        }
        let mut s = i64_to_dec(self.created_at_ms);
        s.append("-");
        s.append(i64_to_dec(self.id).as_str());
        proof {
            assert(s@ =~= offset_seq(self@.created_at_ms, self@.id));
        }
        s
    }

    /// Parses a cursor; `None` unless it is two non-negative decimal
    /// numbers joined by '-'.
    pub fn parse_offset(offset: &str) -> (r: Option<(i64, i64)>)
        ensures
            match r {
                Some(p) => offset_parse(offset@) == Some((p.0 as int, p.1 as int)),
                None => offset_parse(offset@) is None,
            },
    {
        let parts = split_str(offset, '-');
        if parts.len() != 2 {
            return None;
        }
        proof {
            assert(parts@[0]@ == split_on(offset@, '-')[0]);
            assert(parts@[1]@ == split_on(offset@, '-')[1]);
        }
        let c = match parse_u64_dec(parts[0].as_str()) {
            None => {
                return None;
            },
            Some(c) => c,
        };
        let i = match parse_u64_dec(parts[1].as_str()) {
            None => {
                return None;
            },
            Some(i) => i,
        };
        if c <= i64::MAX as u64 && i <= i64::MAX as u64 {
            Some((c as i64, i as i64))
        } else {
            None
        }
    }
}

/// Rendering a cursor and parsing it back returns the pair, for any pair
/// a valid row can carry.
pub proof fn lemma_offset_round_trip(created_at_ms: int, id: int)
    requires
        0 <= created_at_ms <= i64::MAX,
        0 <= id <= i64::MAX,
    ensures
        offset_parse(offset_seq(created_at_ms, id)) == Some((created_at_ms, id)),
{
    lemma_dec_seq_round_trip(created_at_ms as nat);
    lemma_dec_seq_round_trip(id as nat);
    let a = dec_seq(created_at_ms as nat);
    let b = dec_seq(id as nat);
    assert forall|i: int| 0 <= i < a.len() implies a[i] != '-' by {
        assert(is_dec_digit(a[i]));
        assert((a[i] as u32) != ('-' as u32));
    }
    assert forall|i: int| 0 <= i < b.len() implies b[i] != '-' by {
        assert(is_dec_digit(b[i]));
        assert((b[i] as u32) != ('-' as u32));
    }
    let parts = seq![a, b];
    lemma_split_join(parts, '-');
    assert(join_with(parts, '-') =~= offset_seq(created_at_ms, id)) by {
        reveal_with_fuel(join_with, 3);
        assert(parts.drop_last() =~= seq![a]);
    }
}

// ---------------------------------------------------------------------------
// State transitions
// ---------------------------------------------------------------------------
/// The four bulk state transitions of the reader protocol.
#[derive(Clone, Copy, PartialEq, Eq, Structural, Debug)]
pub enum State {
    STARRED,
    UNSTARRED,
    READ,
    UNREAD,
}

impl State {
    /// Which flag the transition writes.
    pub fn column(&self) -> (r: &'static str)
        ensures
            (self is STARRED || self is UNSTARRED) ==> r@ == "starred"@,
            (self is READ || self is UNREAD) ==> r@ == "read"@,
    {
        match self {
            Self::STARRED | Self::UNSTARRED => "starred",
            Self::READ | Self::UNREAD => "read",
        }
    }

    /// The value it writes there.
    pub fn value(&self) -> (r: bool)
        ensures
            r == (self is STARRED || self is READ),
    {
        match self {
            Self::STARRED | Self::READ => true,
            Self::UNSTARRED | Self::UNREAD => false,
        }
    }
}

/// The row as a state transition leaves it.
pub open spec fn apply_state(x: ItemView, st: State) -> ItemView {
    match st {
        State::STARRED => ItemView { starred: true, ..x },
        State::UNSTARRED => ItemView { starred: false, ..x },
        State::READ => ItemView { read: true, ..x },
        State::UNREAD => ItemView { read: false, ..x },
    }
}

/// Applying the same transition twice is the same as applying it once.
pub proof fn lemma_apply_state_idempotent(x: ItemView, st: State)
    ensures
        apply_state(apply_state(x, st), st) == apply_state(x, st),
{
}

/// Marking unread and then read restores a read row exactly; flags
/// round-trip losslessly.
pub proof fn lemma_read_round_trip(x: ItemView)
    ensures
        x.read ==> apply_state(apply_state(x, State::UNREAD), State::READ) == x,
        !x.read ==> apply_state(apply_state(x, State::READ), State::UNREAD) == x,
{
}

// ---------------------------------------------------------------------------
// The store
// ---------------------------------------------------------------------------
/// The entry key that the uniqueness constraint is on.
pub open spec fn entry_key(x: ItemView) -> (Seq<char>, Seq<char>, Seq<char>) {
    (x.user_id, x.subscription_id, x.external_id)
}

/// The set of entry keys of a row sequence.
pub open spec fn key_set(s: Seq<ItemView>) -> Set<(Seq<char>, Seq<char>, Seq<char>)> {
    s.map_values(|x: ItemView| entry_key(x)).to_set()
}

/// The views of a vector of items.
pub open spec fn rows_of(v: Seq<Item>) -> Seq<ItemView> {
    v.map_values(|it: Item| it@)
}

/// `x` with another surrogate id, all else equal.
pub open spec fn with_row_id(x: ItemView, id: int) -> ItemView {
    ItemView { id, ..x }
}

/// The item table of all users, with its surrogate-id counter.
pub struct ItemStore {
    items: Vec<Item>,
    next_id: i64,
}

impl ItemStore {
    /// The stored rows, ordered by `(created_at_ms, id)`.
    pub closed spec fn rows(&self) -> Seq<ItemView> {
        rows_of(self.items@)
    }

    /// The next surrogate id to assign.
    pub closed spec fn next(&self) -> int {
        self.next_id as int
    }

    /// What every stored row satisfies.
    pub open spec fn valid_row(x: ItemView, next: int) -> bool {
        &&& 1 <= x.id < next
        &&& 0 <= x.created_at_ms <= MAX_TIME_MS as int
        &&& 0 <= x.fetched_at_ms
    }

    /// The store's invariant: rows are valid, strictly ordered by
    /// `(created_at_ms, id)`, no entry key repeats, and no surrogate id
    /// repeats, so id-keyed operations address at most one row.
    pub open spec fn wf(&self) -> bool {
        &&& 1 <= self.next() <= i64::MAX
        &&& forall|i: int|
            0 <= i < self.rows().len() ==> Self::valid_row(#[trigger] self.rows()[i], self.next())
        &&& forall|i: int, j: int|
            0 <= i < j < self.rows().len() ==> key_lt(
                #[trigger] self.rows()[i],
                #[trigger] self.rows()[j],
            )
        &&& forall|i: int, j: int|
            0 <= i < j < self.rows().len() ==> !same_entry(
                #[trigger] self.rows()[i],
                #[trigger] self.rows()[j],
            )
        &&& forall|i: int, j: int|
            0 <= i < j < self.rows().len() ==> (#[trigger] self.rows()[i]).id != (
            #[trigger] self.rows()[j]).id
    }

    /// An empty store.
    pub fn new() -> (r: ItemStore)
        ensures
            r.wf(),
            r.rows() =~= Seq::<ItemView>::empty(),
            r.next() == 1,
    {
        let r = ItemStore { items: Vec::new(), next_id: 1 };
        proof {
            assert(r.rows() =~= Seq::<ItemView>::empty());
        }
        r
    }

    /// Whether a row for the same entry is already stored.
    fn contains_entry(&self, item: &Item) -> (r: bool)
        ensures
            r == has_entry(self.rows(), item@),
    {
        let n = self.items.len();
        let mut i: usize = 0;
        while i < n
            invariant
                0 <= i <= n,
                n == self.items@.len(),
                forall|j: int| 0 <= j < i ==> !same_entry(#[trigger] self.rows()[j], item@),
            decreases n - i,
        {
            let it = &self.items[i];
            if str_eq(it.user_id.as_str(), item.user_id.as_str()) && str_eq(
                it.subscription_id.as_str(),
                item.subscription_id.as_str(),
            ) && str_eq(it.external_id.as_str(), item.external_id.as_str()) {
                proof {
                    assert(same_entry(self.rows()[i as int], item@));
                }
                return true;
            }
            i = i + 1;
        }
        false
    }

    /// Inserts a fresh entry at its sorted position, assigning the next
    /// surrogate id.
    fn insert_new(&mut self, item: Item)
        requires
            old(self).wf(),
            !has_entry(old(self).rows(), item@),
            0 <= item@.created_at_ms <= MAX_TIME_MS as int,
            0 <= item@.fetched_at_ms,
            old(self).next() < i64::MAX,
        ensures
            final(self).wf(),
            final(self).next() == old(self).next() + 1,
            final(self).rows().len() == old(self).rows().len() + 1,
            final(self).rows().contains(with_row_id(item@, old(self).next())),
            forall|x: ItemView|
                old(self).rows().contains(x) ==> #[trigger] final(self).rows().contains(x),
            forall|x: ItemView|
                #[trigger] final(self).rows().contains(x) ==> old(self).rows().contains(x) || x
                    == with_row_id(item@, old(self).next()),
    {
        let n = self.items.len();
        let mut idx: usize = 0;
        loop
            invariant
                0 <= idx <= n,
                n == self.items@.len(),
                forall|j: int|
                    0 <= j < idx ==> (#[trigger] self.rows()[j]).created_at_ms
                        <= item@.created_at_ms,
            ensures
                0 <= idx <= n,
                forall|j: int|
                    0 <= j < idx ==> (#[trigger] self.rows()[j]).created_at_ms
                        <= item@.created_at_ms,
                idx == n || self.rows()[idx as int].created_at_ms > item@.created_at_ms,
            decreases n - idx,
        {
            if idx == n {
                break;
            }
            if self.items[idx].created_at_ms > item.created_at_ms {
                break;
            }
            idx = idx + 1;
        }
        let ghost oldrows = self.rows();
        let ghost newv = with_row_id(item@, self.next());
        let assigned = Item { id: self.next_id, ..item };
        proof {
            assert(assigned@ == newv);
        }
        self.items.insert(idx, assigned);
        self.next_id = self.next_id + 1;
        proof {
            assert(self.rows() =~= oldrows.insert(idx as int, newv));
            let rows = self.rows();
            let len = rows.len() as int;
            // index map: j < idx keeps j; j > idx came from j - 1
            assert(forall|j: int| 0 <= j < idx ==> rows[j] == oldrows[j]);
            assert(rows[idx as int] == newv);
            assert(forall|j: int| idx < j < len ==> rows[j] == oldrows[j - 1]);
            assert forall|x: ItemView| oldrows.contains(x) implies #[trigger] rows.contains(x) by {
                let j = choose|j: int| 0 <= j < oldrows.len() && oldrows[j] == x;
                if j < idx {
                    assert(rows[j] == x);
                } else {
                    assert(rows[j + 1] == x);
                }
            }
            assert forall|x: ItemView| #[trigger] rows.contains(x) implies oldrows.contains(x) || x
                == newv by {
                let j = choose|j: int| 0 <= j < rows.len() && rows[j] == x;
                if j < idx {
                    assert(oldrows[j] == x);
                } else if j > idx {
                    assert(oldrows[j - 1] == x);
                }
            }
            // well-formedness: order
            assert forall|i: int, j: int| 0 <= i < j < len implies key_lt(
                #[trigger] rows[i],
                #[trigger] rows[j],
            ) by {
                if j < idx || (i > idx) {
                } else if i == idx {
                    // newv against a later old row: strictly newer timestamp
                    assert(oldrows[j - 1].created_at_ms > newv.created_at_ms);
                } else if j == idx {
                    // an earlier old row against newv: its id is older
                    assert(oldrows[i].created_at_ms <= newv.created_at_ms);
                    assert(oldrows[i].id < old(self).next());
                } else {
                    // i < idx < j: both sides relate through the old order
                    if i < idx && j > idx {
                        assert(key_lt(oldrows[i], oldrows[j - 1]));
                    }
                }
            }
            // well-formedness: unique entries
            assert forall|i: int, j: int| 0 <= i < j < len implies !same_entry(
                #[trigger] rows[i],
                #[trigger] rows[j],
            ) by {
                if i == idx {
                    assert(same_entry(newv, item@));
                    if same_entry(rows[i], rows[j]) {
                        assert(same_entry(oldrows[j - 1], item@));
                    }
                } else if j == idx {
                    if same_entry(rows[i], rows[j]) {
                        assert(same_entry(oldrows[i], item@));
                    }
                }
            }
            assert(rows.contains(newv)) by {
                assert(rows[idx as int] == newv);
            }
        }
    }
}

/// Whether `x` is one of the batch rows, its surrogate id aside.
pub open spec fn from_batch(x: ItemView, batch: Seq<ItemView>) -> bool {
    exists|k: int| 0 <= k < batch.len() && x == with_row_id(#[trigger] batch[k], x.id)
}

/// A row stands for a batch entry exactly when its key is in the batch's
/// key set.
pub proof fn lemma_has_entry_key(s: Seq<ItemView>, x: ItemView)
    ensures
        has_entry(s, x) <==> key_set(s).contains(entry_key(x)),
{
    let mapped = s.map_values(|y: ItemView| entry_key(y));
    if has_entry(s, x) {
        let i = choose|i: int| 0 <= i < s.len() && same_entry(#[trigger] s[i], x);
        assert(mapped[i] == entry_key(x));
        assert(mapped.contains(entry_key(x)));
    }
    if key_set(s).contains(entry_key(x)) {
        let i = choose|i: int| 0 <= i < mapped.len() && mapped[i] == entry_key(x);
        assert(same_entry(s[i], x));
    }
}

/// Sequences with the same rows have the same key set.
pub proof fn lemma_key_set_same(a: Seq<ItemView>, b: Seq<ItemView>)
    requires
        forall|x: ItemView| a.contains(x) <==> b.contains(x),
    ensures
        key_set(a) =~= key_set(b),
{
    let fa = a.map_values(|y: ItemView| entry_key(y));
    let fb = b.map_values(|y: ItemView| entry_key(y));
    assert forall|k: (Seq<char>, Seq<char>, Seq<char>)|
        key_set(a).contains(k) implies key_set(b).contains(k) by {
        let i = choose|i: int| 0 <= i < fa.len() && fa[i] == k;
        assert(b.contains(a[i]));
        let j = choose|j: int| 0 <= j < b.len() && b[j] == a[i];
        assert(fb[j] == k);
    }
    assert forall|k: (Seq<char>, Seq<char>, Seq<char>)|
        key_set(b).contains(k) implies key_set(a).contains(k) by {
        let i = choose|i: int| 0 <= i < fb.len() && fb[i] == k;
        assert(a.contains(b[i]));
        let j = choose|j: int| 0 <= j < a.len() && a[j] == b[i];
        assert(fa[j] == k);
    }
}

/// Pushing a row adds its key to the key set.
pub proof fn lemma_key_set_push(s: Seq<ItemView>, x: ItemView)
    ensures
        key_set(s.push(x)) =~= key_set(s).insert(entry_key(x)),
{
    broadcast use Seq::lemma_push_to_set_commute;

    assert(s.push(x).map_values(|y: ItemView| entry_key(y)) =~= s.map_values(
        |y: ItemView| entry_key(y),
    ).push(entry_key(x)));
}

/// Key sets are finite.
pub proof fn lemma_key_set_finite(s: Seq<ItemView>)
    ensures
        key_set(s).finite(),
{
    broadcast use vstd::seq_lib::seq_to_set_is_finite;

}

/// Sorts a batch by `created_at_ms`, keeping exactly the same rows.
fn sort_by_created(v: Vec<Item>) -> (r: Vec<Item>)
    ensures
        rows_of(r@).to_multiset() == rows_of(v@).to_multiset(),
        r@.len() == v@.len(),
        forall|i: int, j: int|
            0 <= i < j < r@.len() ==> (#[trigger] rows_of(r@)[i]).created_at_ms
                <= (#[trigger] rows_of(r@)[j]).created_at_ms,
{
    broadcast use vstd::seq_lib::group_to_multiset_ensures;
    broadcast use vstd::multiset::group_multiset_axioms;

    let ghost orig = rows_of(v@);
    let mut rest = v;
    let mut out: Vec<Item> = Vec::new();
    proof {
        assert(rows_of(out@) =~= Seq::<ItemView>::empty());
        assert(rows_of(out@).to_multiset().add(rows_of(rest@).to_multiset())
            =~= orig.to_multiset());
    }
    while rest.len() > 0
        invariant
            rows_of(out@).to_multiset().add(rows_of(rest@).to_multiset()) =~= orig.to_multiset(),
            out@.len() + rest@.len() == orig.len(),
            forall|i: int, j: int|
                0 <= i < j < out@.len() ==> (#[trigger] rows_of(out@)[i]).created_at_ms
                    <= (#[trigger] rows_of(out@)[j]).created_at_ms,
        decreases rest@.len(),
    {
        let ghost rest0 = rows_of(rest@);
        let ghost out0 = rows_of(out@);
        let it = rest.remove(0);
        proof {
            assert(rows_of(rest@) =~= rest0.remove(0));
            vstd::seq_lib::to_multiset_remove(rest0, 0);
            assert(rest0[0] == it@);
        }
        let m = out.len();
        let mut p: usize = 0;
        loop
            invariant
                0 <= p <= m,
                m == out@.len(),
                forall|q: int|
                    0 <= q < p ==> (#[trigger] rows_of(out@)[q]).created_at_ms
                        <= it@.created_at_ms,
            ensures
                0 <= p <= m,
                forall|q: int|
                    0 <= q < p ==> (#[trigger] rows_of(out@)[q]).created_at_ms
                        <= it@.created_at_ms,
                p == m || rows_of(out@)[p as int].created_at_ms > it@.created_at_ms,
            decreases m - p,
        {
            if p == m {
                break;
            }
            if out[p].created_at_ms > it.created_at_ms {
                break;
            }
            p = p + 1;
        }
        out.insert(p, it);
        proof {
            assert(rows_of(out@) =~= out0.insert(p as int, it@));
            vstd::seq_lib::to_multiset_insert(out0, p as int, it@);
            vstd::seq_lib::to_multiset_contains(rest0, it@);
            assert(rest0.contains(it@)) by {
                assert(rest0[0] == it@);
            }
            assert(rest0.to_multiset().count(it@) > 0);
            assert(out0.to_multiset().insert(it@).add(rest0.to_multiset().remove(it@))
                =~= out0.to_multiset().add(rest0.to_multiset()));
            assert(rows_of(out@).to_multiset().add(rows_of(rest@).to_multiset())
                =~= orig.to_multiset());
            let now = rows_of(out@);
            assert forall|i: int, j: int| 0 <= i < j < now.len() implies (#[trigger] now[i]).created_at_ms
                <= (#[trigger] now[j]).created_at_ms by {
                if j < p {
                } else if i == p {
                    assert(now[j] == out0[j - 1]);
                    assert(out0[p as int].created_at_ms > it@.created_at_ms);
                    assert(out0[p as int].created_at_ms <= out0[j - 1].created_at_ms || p as int == j - 1);
                } else if j == p {
                    assert(now[i] == out0[i]);
                } else if i < p && j > p {
                    assert(now[i] == out0[i] && now[j] == out0[j - 1]);
                    assert(out0[i].created_at_ms <= it@.created_at_ms);
                    assert(out0[p as int].created_at_ms > it@.created_at_ms);
                    assert(p as int == j - 1 || out0[p as int].created_at_ms <= out0[j - 1].created_at_ms);
                } else {
                    assert(now[i] == out0[i - 1] && now[j] == out0[j - 1]);
                }
            }
        }
    }
    proof {
        assert(rows_of(rest@) =~= Seq::<ItemView>::empty());
        assert(rows_of(out@).to_multiset().add(vstd::multiset::Multiset::<ItemView>::empty())
            =~= rows_of(out@).to_multiset());
        assert(rows_of(out@).to_multiset().len() == orig.to_multiset().len());
    }
    out
}

impl ItemStore {
    /// Bulk idempotent insert: rows whose `(user, subscription, external)`
    /// key is already stored are skipped untouched, flags included; the
    /// rest are assigned fresh surrogate ids in chronological order.
    pub fn insert_items(&mut self, items: Vec<Item>) -> (r: Result<(), Errors>)
        requires
            old(self).wf(),
            forall|k: int|
                0 <= k < items@.len() ==> {
                    &&& 0 <= (#[trigger] items@[k])@.created_at_ms <= MAX_TIME_MS as int
                    &&& 0 <= items@[k]@.fetched_at_ms
                },
        ensures
            match r {
                Ok(()) => {
                    let oldrows = old(self).rows();
                    let rows = final(self).rows();
                    let batch = rows_of(items@);
                    &&& final(self).wf()
                    &&& old(self).next() <= final(self).next() <= old(self).next() + batch.len()
                    &&& forall|x: ItemView|
                        oldrows.contains(x) ==> #[trigger] rows.contains(x)
                    &&& forall|x: ItemView|
                        #[trigger] rows.contains(x) ==> oldrows.contains(x) || (from_batch(
                            x,
                            batch,
                        ) && old(self).next() <= x.id < final(self).next())
                    &&& forall|k: int|
                        0 <= k < batch.len() ==> has_entry(rows, #[trigger] batch[k])
                    &&& rows.len() == oldrows.len() + key_set(batch).difference(
                        key_set(oldrows),
                    ).len()
                    &&& forall|x: ItemView, y: ItemView|
                        #[trigger] rows.contains(x) && #[trigger] rows.contains(y) && x.id >= old(
                            self,
                        ).next() && y.id >= old(self).next() && x.created_at_ms < y.created_at_ms
                            ==> x.id < y.id
                    &&& (forall|k: int|
                        0 <= k < batch.len() ==> has_entry(oldrows, #[trigger] batch[k]))
                        ==> rows == oldrows && final(self).next() == old(self).next()
                },
                Err(e) => {
                    &&& e is StorageError
                    &&& *final(self) == *old(self)
                    &&& items@.len() > i64::MAX - old(self).next()
                },
            },
    {
        broadcast use vstd::seq_lib::group_to_multiset_ensures;

        let ghost batch = rows_of(items@);
        let n = items.len();
        let cap = i64::MAX - self.next_id;
        if (n as u128) > (cap as u128) {
            return Err(Errors::StorageError);
        }
        let sorted = sort_by_created(items);
        let ghost bs = rows_of(sorted@);
        proof {
            assert forall|x: ItemView| bs.contains(x) <==> batch.contains(x) by {
                vstd::seq_lib::to_multiset_contains(bs, x);
                vstd::seq_lib::to_multiset_contains(batch, x);
            }
            assert forall|k: int| 0 <= k < bs.len() implies {
                &&& 0 <= (#[trigger] bs[k]).created_at_ms <= MAX_TIME_MS as int
                &&& 0 <= bs[k].fetched_at_ms
            } by {
                assert(batch.contains(bs[k]));
                let j = choose|j: int| 0 <= j < batch.len() && batch[j] == bs[k];
                assert(batch[j] == items@[j]@);
            }
            lemma_key_set_same(bs, batch);
            lemma_key_set_finite(batch);
            lemma_key_set_finite(old(self).rows());
        }
        let ghost oldrows = self.rows();
        let ghost oldnext = self.next();
        let m = sorted.len();
        let mut k: usize = 0;
        proof {
            assert(bs.take(0) =~= Seq::<ItemView>::empty());
            assert(bs.take(0).map_values(|y: ItemView| entry_key(y)) =~= Seq::<(
                Seq<char>,
                Seq<char>,
                Seq<char>,
            )>::empty());
            assert(key_set(bs.take(0)).difference(key_set(oldrows)) =~= Set::<(
                Seq<char>,
                Seq<char>,
                Seq<char>,
            )>::empty());
        }
        while k < m
            invariant
                0 <= k <= m,
                m == bs.len() == sorted@.len(),
                self.wf(),
                oldrows == old(self).rows(),
                oldnext == old(self).next(),
                bs == rows_of(sorted@),
                forall|x: ItemView| bs.contains(x) <==> batch.contains(x),
                forall|j: int|
                    0 <= j < bs.len() ==> {
                        &&& 0 <= (#[trigger] bs[j]).created_at_ms <= MAX_TIME_MS as int
                        &&& 0 <= bs[j].fetched_at_ms
                    },
                forall|i: int, j: int|
                    0 <= i < j < bs.len() ==> (#[trigger] bs[i]).created_at_ms
                        <= (#[trigger] bs[j]).created_at_ms,
                bs.len() <= i64::MAX - oldnext,
                key_set(bs) =~= key_set(batch),
                key_set(batch).finite(),
                key_set(oldrows).finite(),
                oldnext <= self.next() <= oldnext + k,
                self.rows().len() == oldrows.len() + (self.next() - oldnext),
                forall|x: ItemView| oldrows.contains(x) ==> #[trigger] self.rows().contains(x),
                forall|x: ItemView|
                    #[trigger] self.rows().contains(x) ==> oldrows.contains(x) || (from_batch(
                        x,
                        bs.take(k as int),
                    ) && oldnext <= x.id < self.next()),
                forall|j: int| 0 <= j < k ==> has_entry(self.rows(), #[trigger] bs[j]),
                self.rows().len() == oldrows.len() + key_set(bs.take(k as int)).difference(
                    key_set(oldrows),
                ).len(),
                forall|x: ItemView, y: ItemView|
                    #[trigger] self.rows().contains(x) && #[trigger] self.rows().contains(y)
                        && x.id >= oldnext && y.id >= oldnext && x.created_at_ms < y.created_at_ms
                        ==> x.id < y.id,
                forall|x: ItemView, j: int|
                    #[trigger] self.rows().contains(x) && x.id >= oldnext && k <= j < bs.len()
                        ==> x.created_at_ms <= (#[trigger] bs[j]).created_at_ms,
                (forall|j: int| 0 <= j < k ==> has_entry(oldrows, #[trigger] bs[j]))
                    ==> self.rows() == oldrows && self.next() == oldnext,
            decreases m - k,
        {
            let ghost cur = self.rows();
            let ghost curnext = self.next();
            let ghost kk = entry_key(bs[k as int]);
            proof {
                assert(bs.take(k + 1) =~= bs.take(k as int).push(bs[k as int]));
                lemma_key_set_push(bs.take(k as int), bs[k as int]);
                lemma_key_set_finite(bs.take(k as int));
            }
            let it = &sorted[k];
            proof {
                assert(it@ == bs[k as int]);
            }
            if self.contains_entry(it) {
                // already stored: leave the existing row untouched
                proof {
                    lemma_has_entry_key(cur, bs[k as int]);
                    // the key is either an old one or came from the batch so far
                    let i = choose|i: int|
                        0 <= i < cur.len() && same_entry(#[trigger] cur[i], bs[k as int]);
                    assert(self.rows().contains(cur[i]));
                    if oldrows.contains(cur[i]) {
                        lemma_has_entry_key(oldrows, bs[k as int]);
                        assert(has_entry(oldrows, bs[k as int])) by {
                            let j = choose|j: int|
                                0 <= j < oldrows.len() && oldrows[j] == cur[i];
                            assert(same_entry(oldrows[j], bs[k as int]));
                        }
                        assert(key_set(oldrows).contains(kk));
                    } else {
                        assert(from_batch(cur[i], bs.take(k as int)) && oldnext <= cur[i].id);
                        let j = choose|j: int|
                            0 <= j < bs.take(k as int).len() && cur[i] == with_row_id(
                                #[trigger] bs.take(k as int)[j],
                                cur[i].id,
                            );
                        assert(entry_key(bs.take(k as int)[j]) == kk);
                        assert(bs.take(k as int).map_values(|y: ItemView| entry_key(y))[j] == kk);
                        assert(key_set(bs.take(k as int)).contains(kk));
                    }
                    assert(key_set(bs.take(k + 1)).difference(key_set(oldrows)) =~= key_set(
                        bs.take(k as int),
                    ).difference(key_set(oldrows)));
                    // presence of bs[j] for j <= k
                    assert(forall|j: int| 0 <= j < k + 1 ==> has_entry(self.rows(), #[trigger] bs[j]));
                }
            } else {
                let fresh = it.duplicate();
                proof {
                    assert(self.next() < i64::MAX);
                }
                self.insert_new(fresh);
                proof {
                    let ghost newv = with_row_id(bs[k as int], curnext);
                    assert(self.rows().contains(newv));
                    // the new key was in neither the old rows nor the earlier batch
                    assert(!key_set(oldrows).contains(kk)) by {
                        lemma_has_entry_key(oldrows, bs[k as int]);
                        if has_entry(oldrows, bs[k as int]) {
                            let j = choose|j: int|
                                0 <= j < oldrows.len() && same_entry(
                                    #[trigger] oldrows[j],
                                    bs[k as int],
                                );
                            assert(cur.contains(oldrows[j]));
                            let i = choose|i: int| 0 <= i < cur.len() && cur[i] == oldrows[j];
                            assert(same_entry(cur[i], bs[k as int]));
                            assert(has_entry(cur, bs[k as int]));
                        }
                    }
                    assert(!key_set(bs.take(k as int)).contains(kk)) by {
                        lemma_has_entry_key(cur, bs[k as int]);
                        if key_set(bs.take(k as int)).contains(kk) {
                            let mapped = bs.take(k as int).map_values(|y: ItemView| entry_key(y));
                            assert(mapped.contains(kk));
                            let j = choose|j: int| 0 <= j < mapped.len() && mapped[j] == kk;
                            assert(entry_key(bs[j]) == kk);
                            assert(has_entry(cur, bs[j]));
                            let i = choose|i: int|
                                0 <= i < cur.len() && same_entry(#[trigger] cur[i], bs[j]);
                            assert(same_entry(cur[i], bs[k as int]));
                            assert(has_entry(cur, bs[k as int]));
                        }
                    }
                    let d0 = key_set(bs.take(k as int)).difference(key_set(oldrows));
                    let d1 = key_set(bs.take(k + 1)).difference(key_set(oldrows));
                    assert(d1 =~= d0.insert(kk));
                    assert(!d0.contains(kk));
                    assert(d0.finite());
                    assert(d1.len() == d0.len() + 1);
                    // presence: the new row stands for bs[k]
                    assert(same_entry(newv, bs[k as int]));
                    assert forall|j: int| 0 <= j < k + 1 implies has_entry(
                        self.rows(),
                        #[trigger] bs[j],
                    ) by {
                        if j < k {
                            let i = choose|i: int|
                                0 <= i < cur.len() && same_entry(#[trigger] cur[i], bs[j]);
                            assert(self.rows().contains(cur[i]));
                            let i2 = choose|i2: int|
                                0 <= i2 < self.rows().len() && self.rows()[i2] == cur[i];
                            assert(same_entry(self.rows()[i2], bs[j]));
                        } else {
                            let i2 = choose|i2: int|
                                0 <= i2 < self.rows().len() && self.rows()[i2] == newv;
                            assert(same_entry(self.rows()[i2], bs[j]));
                        }
                    }
                    // provenance of the new row
                    assert(from_batch(newv, bs.take(k + 1))) by {
                        assert(bs.take(k + 1)[k as int] == bs[k as int]);
                        assert(newv == with_row_id(bs.take(k + 1)[k as int], newv.id));
                    }
                    assert forall|x: ItemView|
                        #[trigger] self.rows().contains(x) implies oldrows.contains(x) || (
                    from_batch(x, bs.take(k + 1)) && oldnext <= x.id < self.next()) by {
                        if x != newv {
                            assert(cur.contains(x));
                            if !oldrows.contains(x) {
                                assert(from_batch(x, bs.take(k as int)));
                                let j = choose|j: int|
                                    0 <= j < bs.take(k as int).len() && x == with_row_id(
                                        #[trigger] bs.take(k as int)[j],
                                        x.id,
                                    );
                                assert(bs.take(k + 1)[j] == bs.take(k as int)[j]);
                                assert(x == with_row_id(bs.take(k + 1)[j], x.id));
                            }
                        }
                    }
                    // chronology
                    assert forall|x: ItemView, y: ItemView|
                        #[trigger] self.rows().contains(x) && #[trigger] self.rows().contains(y)
                            && x.id >= oldnext && y.id >= oldnext && x.created_at_ms
                            < y.created_at_ms implies x.id < y.id by {
                        if y == newv {
                            if x != newv {
                                assert(cur.contains(x));
                                assert(Self::valid_row(x, curnext)) by {
                                    let i = choose|i: int|
                                        0 <= i < cur.len() && cur[i] == x;
                                }
                                assert(x.id < curnext == newv.id);
                            }
                        } else if x == newv {
                            // impossible: every remaining batch row is as new
                            assert(cur.contains(y));
                            assert(y.created_at_ms <= bs[k as int].created_at_ms);
                            assert(false);
                        } else {
                            assert(cur.contains(x) && cur.contains(y));
                        }
                    }
                    assert forall|x: ItemView, j: int|
                        #[trigger] self.rows().contains(x) && x.id >= oldnext && k + 1 <= j
                            < bs.len() implies x.created_at_ms
                        <= (#[trigger] bs[j]).created_at_ms by {
                        if x == newv {
                            assert(bs[k as int].created_at_ms <= bs[j].created_at_ms);
                        } else {
                            assert(cur.contains(x));
                        }
                    }
                    // the all-keys-already-present case did not happen here
                    assert((forall|j: int|
                        0 <= j < k + 1 ==> has_entry(oldrows, #[trigger] bs[j])) ==> false) by {
                        if forall|j: int| 0 <= j < k + 1 ==> has_entry(oldrows, #[trigger] bs[j]) {
                            assert(has_entry(oldrows, bs[k as int]));
                            lemma_has_entry_key(oldrows, bs[k as int]);
                        }
                    }
                }
            }
            k = k + 1;
        }
        proof {
            assert(bs.take(m as int) =~= bs);
            assert forall|j: int| 0 <= j < batch.len() implies has_entry(
                self.rows(),
                #[trigger] batch[j],
            ) by {
                assert(bs.contains(batch[j])) by {
                    assert(batch.contains(batch[j]));
                }
                let i = choose|i: int| 0 <= i < bs.len() && bs[i] == batch[j];
                assert(has_entry(self.rows(), bs[i]));
                let i2 = choose|i2: int|
                    0 <= i2 < self.rows().len() && same_entry(#[trigger] self.rows()[i2], bs[i]);
                assert(same_entry(self.rows()[i2], batch[j]));
            }
            assert forall|x: ItemView|
                #[trigger] self.rows().contains(x) && !oldrows.contains(x) implies from_batch(
                x,
                batch,
            ) by {
                assert(from_batch(x, bs));
                let j = choose|j: int|
                    0 <= j < bs.len() && x == with_row_id(#[trigger] bs[j], x.id);
                assert(batch.contains(bs[j]));
                let j2 = choose|j2: int| 0 <= j2 < batch.len() && batch[j2] == bs[j];
                assert(x == with_row_id(batch[j2], x.id));
            }
            assert((forall|j: int|
                0 <= j < batch.len() ==> has_entry(oldrows, #[trigger] batch[j])) ==> self.rows()
                == oldrows && self.next() == oldnext) by {
                if forall|j: int| 0 <= j < batch.len() ==> has_entry(oldrows, #[trigger] batch[j]) {
                    assert forall|j: int| 0 <= j < bs.len() implies has_entry(
                        oldrows,
                        #[trigger] bs[j],
                    ) by {
                        assert(batch.contains(bs[j]));
                        let j2 = choose|j2: int| 0 <= j2 < batch.len() && batch[j2] == bs[j];
                        let i = choose|i: int|
                            0 <= i < oldrows.len() && same_entry(#[trigger] oldrows[i], batch[j2]);
                        assert(same_entry(oldrows[i], bs[j]));
                    }
                }
            }
        }
        Ok(())
    }
}

// ---------------------------------------------------------------------------
// Listing
// ---------------------------------------------------------------------------
/// Which rows a listing asks for.
#[derive(Clone, Copy, PartialEq, Eq, Structural, Debug)]
pub enum Filter {
    ALL,
    UNREAD,
    READ,
    STARRED,
}

/// Whether a row belongs to the user and passes the filter.
pub open spec fn row_matches(x: ItemView, u: Seq<char>, f: Filter) -> bool {
    x.user_id == u && match f {
        Filter::ALL => true,
        Filter::UNREAD => !x.read,
        Filter::READ => x.read,
        Filter::STARRED => x.starred,
    }
}

/// Whether a row lies at or past the cursor in the requested direction.
pub open spec fn after_cursor(x: ItemView, cursor: Option<(int, int)>, desc: bool) -> bool {
    match cursor {
        None => true,
        Some(c) => if desc {
            x.created_at_ms < c.0 || (x.created_at_ms == c.0 && x.id <= c.1)
        } else {
            c.0 < x.created_at_ms || (c.0 == x.created_at_ms && c.1 <= x.id)
        },
    }
}

/// The predicate a listing filters rows with.
pub open spec fn passing(u: Seq<char>, f: Filter, cursor: Option<(int, int)>, desc: bool) -> spec_fn(
    ItemView,
) -> bool {
    |x: ItemView| row_matches(x, u, f) && after_cursor(x, cursor, desc)
}

/// The full result of a listing before the limit is applied: the user's
/// rows that pass the filter and lie past the cursor, in the requested
/// order.
pub open spec fn listed(
    s: Seq<ItemView>,
    u: Seq<char>,
    f: Filter,
    cursor: Option<(int, int)>,
    desc: bool,
) -> Seq<ItemView> {
    (if desc {
        s.reverse()
    } else {
        s
    }).filter(passing(u, f, cursor, desc))
}

/// What a cursor string stands for; an unparseable one counts as absent.
pub open spec fn cursor_of(offset: Option<String>) -> Option<(int, int)> {
    match offset {
        None => None,
        Some(o) => offset_parse(o@),
    }
}

/// What the page returned by a listing holds: the first `limit` rows of
/// the full result, and a cursor to the next row exactly when more rows
/// remain.
pub open spec fn is_page(
    s: Seq<ItemView>,
    u: Seq<char>,
    f: Filter,
    offset: Option<String>,
    limit: int,
    desc: bool,
    r: Page<Item, String>,
) -> bool {
    let l = listed(s, u, f, cursor_of(offset), desc);
    &&& (if l.len() > limit {
        &&& rows_of(r.items@) == l.take(limit)
        &&& match r.next_page_offset {
            Some(o) => o@ == offset_seq(l[limit].created_at_ms, l[limit].id),
            None => false,
        }
    } else {
        &&& rows_of(r.items@) == l
        &&& r.next_page_offset is None
    })
    &&& forall|i: int| 0 <= i < r.items@.len() ==> s.contains(#[trigger] rows_of(r.items@)[i])
}

impl ItemStore {
    /// Whether the row passes the filter and cursor of a listing.
    fn row_ok(it: &Item, user_id: &str, f: Filter, cursor: Option<(i64, i64)>, desc: bool) -> (r:
        bool)
        ensures
            r == (row_matches(it@, user_id@, f) && after_cursor(it@, cursor_view(cursor), desc)),
    {
        let user_ok = str_eq(it.user_id.as_str(), user_id);
        let filter_ok = match f {
            Filter::ALL => true,
            Filter::UNREAD => !it.read,
            Filter::READ => it.read,
            Filter::STARRED => it.starred,
        };
        let cursor_ok = match cursor {
            None => true,
            Some(c) => if desc {
                it.created_at_ms < c.0 || (it.created_at_ms == c.0 && it.id <= c.1)
            } else {
                c.0 < it.created_at_ms || (c.0 == it.created_at_ms && c.1 <= it.id)
            },
        };
        user_ok && filter_ok && cursor_ok
    }

    /// Collects the first `want` rows of the full listing result.
    fn scan(&self, user_id: &str, f: Filter, cursor: Option<(i64, i64)>, want: usize, desc: bool)
        -> (r: Vec<Item>)
        ensures
            ({
                let l = listed(self.rows(), user_id@, f, cursor_view(cursor), desc);
                &&& rows_of(r@) == if l.len() > want {
                    l.take(want as int)
                } else {
                    l
                }
                &&& forall|i: int|
                    0 <= i < r@.len() ==> self.rows().contains(#[trigger] rows_of(r@)[i])
            }),
    {
        broadcast use vstd::prelude::Seq::lemma_filter_push;
        broadcast use vstd::prelude::Seq::filter_distributes_over_add;

        let ghost cv = cursor_view(cursor);
        let ghost base = if desc {
            self.rows().reverse()
        } else {
            self.rows()
        };
        let ghost pd = passing(user_id@, f, cv, desc);
        let ghost l = listed(self.rows(), user_id@, f, cv, desc);
        proof {
            assert(l == base.filter(pd));
            assert(base.take(0) =~= Seq::<ItemView>::empty());
            assert(Seq::<ItemView>::empty().filter(pd) =~= Seq::<ItemView>::empty());
        }
        let n = self.items.len();
        let mut out: Vec<Item> = Vec::new();
        let mut i: usize = 0;
        while i < n && out.len() < want
            invariant
                0 <= i <= n,
                n == self.items@.len(),
                base == (if desc {
                    self.rows().reverse()
                } else {
                    self.rows()
                }),
                base.len() == n,
                cv == cursor_view(cursor),
                pd == passing(user_id@, f, cv, desc),
                rows_of(out@) == base.take(i as int).filter(pd),
                out@.len() <= want,
                forall|j: int|
                    0 <= j < out@.len() ==> self.rows().contains(#[trigger] rows_of(out@)[j]),
            decreases n - i,
        {
            let ghost sofar = rows_of(out@);
            let idx = if desc {
                n - 1 - i
            } else {
                i
            };
            let it = &self.items[idx];
            proof {
                assert(it@ == base[i as int]);
                assert(base.take(i + 1) =~= base.take(i as int).push(base[i as int]));
                base.take(i as int).lemma_filter_push(base[i as int], pd);
                assert(self.rows().contains(it@)) by {
                    assert(self.rows()[idx as int] == it@);
                }
            }
            let ok = Self::row_ok(it, user_id, f, cursor, desc);
            proof {
                assert(pd == passing(user_id@, f, cv, desc));
                assert(passing(user_id@, f, cv, desc)(it@) == (row_matches(it@, user_id@, f)
                    && after_cursor(it@, cv, desc)));
                assert(pd(it@) == ok);
            }
            if ok {
                out.push(it.duplicate());
                proof {
                    assert(rows_of(out@) =~= sofar.push(it@));
                }
            }
            i = i + 1;
        }
        proof {
            let got = rows_of(out@);
            if i == n {
                assert(base.take(n as int) =~= base);
                if l.len() > want {
                    assert(got.len() <= want);
                    assert(false);
                }
            } else {
                // stopped early with a full page and one row to spare
                assert(got.len() == want);
                assert(base =~= base.take(i as int) + base.skip(i as int));
                assert(l == base.take(i as int).filter(pd) + base.skip(i as int).filter(pd));
                assert(l.take(want as int) =~= got);
                if l.len() <= want {
                    assert(l =~= got);
                }
            }
        }
        out
    }

    /// Lists one page of the user's rows under the given filter. An
    /// unparseable cursor reads as no cursor.
    pub fn get_items_filtered(&self, user_id: &str, filter: Filter, page_option: PageOption<String>)
        -> (r: Page<Item, String>)
        requires
            self.wf(),
        ensures
            is_page(
                self.rows(),
                user_id@,
                filter,
                page_option.offset,
                page_option.limit as int,
                page_option.desc,
                r,
            ),
    {
        let cursor: Option<(i64, i64)> = match &page_option.offset {
            None => None,
            Some(o) => Item::parse_offset(o.as_str()),
        };
        proof {
            assert(cursor_view(cursor) == cursor_of(page_option.offset));
        }
        let limit = page_option.limit;
        let want = if limit == usize::MAX {
            usize::MAX
        } else {
            limit + 1
        };
        let ghost l = listed(
            self.rows(),
            user_id@,
            filter,
            cursor_of(page_option.offset),
            page_option.desc,
        );
        let n = self.items.len();
        let mut got = self.scan(user_id, filter, cursor, want, page_option.desc);
        proof {
            broadcast use vstd::seq_lib::group_filter_ensures;

            assert(self.rows().len() == n as int);
            if page_option.desc {
                assert(self.rows().reverse().len() == n as int);
            }
            assert(l.len() <= n as int);
        }
        if got.len() > limit {
            proof {
                assert(l.len() > limit);
                assert(rows_of(got@) == l.take(want as int));
            }
            let last = match got.pop() {
                Some(last) => last,
                None => {
                    proof {
                        assert(false);
                    }
                    vstd::pervasive::unreached()
                },
            };
            proof {
                assert(last@ == l.take(want as int)[limit as int]);
                assert(last@ == l[limit as int]);
                assert(rows_of(got@) =~= l.take(limit as int));
                assert(self.rows().contains(last@)) by {
                    assert(rows_of(got@.push(last)) == l.take(want as int));
                    assert(rows_of(got@.push(last))[limit as int] == last@);
                }
                let j = choose|j: int| 0 <= j < self.rows().len() && self.rows()[j] == last@;
                assert(Self::valid_row(self.rows()[j], self.next()));
            }
            let next = last.as_offset();
            Page { items: got, next_page_offset: Some(next) }
        } else {
            proof {
                if l.len() > limit {
                    assert(rows_of(got@) == l.take(want as int));
                    assert(rows_of(got@).len() > limit);
                    assert(false);
                }
            }
            Page { items: got, next_page_offset: None }
        }
    }

    /// Lists a page of all the user's items.
    pub fn get_items(&self, user_id: &str, page_option: PageOption<String>) -> (r: Page<
        Item,
        String,
    >)
        requires
            self.wf(),
        ensures
            is_page(
                self.rows(),
                user_id@,
                Filter::ALL,
                page_option.offset,
                page_option.limit as int,
                page_option.desc,
                r,
            ),
    {
        self.get_items_filtered(user_id, Filter::ALL, page_option)
    }

    /// Lists a page of the user's unread items.
    pub fn get_unread_items(&self, user_id: &str, page_option: PageOption<String>) -> (r: Page<
        Item,
        String,
    >)
        requires
            self.wf(),
        ensures
            is_page(
                self.rows(),
                user_id@,
                Filter::UNREAD,
                page_option.offset,
                page_option.limit as int,
                page_option.desc,
                r,
            ),
    {
        self.get_items_filtered(user_id, Filter::UNREAD, page_option)
    }

    /// Lists a page of the user's read items.
    pub fn get_read_items(&self, user_id: &str, page_option: PageOption<String>) -> (r: Page<
        Item,
        String,
    >)
        requires
            self.wf(),
        ensures
            is_page(
                self.rows(),
                user_id@,
                Filter::READ,
                page_option.offset,
                page_option.limit as int,
                page_option.desc,
                r,
            ),
    {
        self.get_items_filtered(user_id, Filter::READ, page_option)
    }

    /// Lists a page of the user's starred items.
    pub fn get_starred_items(&self, user_id: &str, page_option: PageOption<String>) -> (r: Page<
        Item,
        String,
    >)
        requires
            self.wf(),
        ensures
            is_page(
                self.rows(),
                user_id@,
                Filter::STARRED,
                page_option.offset,
                page_option.limit as int,
                page_option.desc,
                r,
            ),
    {
        self.get_items_filtered(user_id, Filter::STARRED, page_option)
    }
}

/// What an exec cursor pair stands for.
pub open spec fn cursor_view(cursor: Option<(i64, i64)>) -> Option<(int, int)> {
    match cursor {
        None => None,
        Some(c) => Some((c.0 as int, c.1 as int)),
    }
}

/// Sets the flag a state transition writes.
fn set_state(it: &mut Item, state: State)
    ensures
        final(it)@ == apply_state(old(it)@, state),
{
    match state {
        State::STARRED => it.starred = true,
        State::UNSTARRED => it.starred = false,
        State::READ => it.read = true,
        State::UNREAD => it.read = false,
    }
}

/// Whether the vector holds the id.
fn ids_contain(ids: &Vec<i64>, id: i64) -> (r: bool)
    ensures
        r == ids@.contains(id),
{
    let n = ids.len();
    let mut i: usize = 0;
    while i < n
        invariant
            0 <= i <= n,
            n == ids@.len(),
            forall|j: int| 0 <= j < i ==> ids@[j] != id,
        decreases n - i,
    {
        if ids[i] == id {
            return true;
        }
        i = i + 1;
    }
    false
}

impl ItemStore {
    /// A state transition leaves keys, order and times untouched, so the
    /// rewritten rows are again well formed.
    proof fn lemma_pointwise_wf(&self, other: &ItemStore)
        requires
            other.wf(),
            self.next() == other.next(),
            self.rows().len() == other.rows().len(),
            forall|i: int|
                0 <= i < self.rows().len() ==> {
                    let a = #[trigger] self.rows()[i];
                    let b = other.rows()[i];
                    &&& a.user_id == b.user_id
                    &&& a.subscription_id == b.subscription_id
                    &&& a.external_id == b.external_id
                    &&& a.id == b.id
                    &&& a.created_at_ms == b.created_at_ms
                    &&& a.fetched_at_ms == b.fetched_at_ms
                },
        ensures
            self.wf(),
    {
    }

    /// Bulk update of the flag named by `state`, for the user's rows whose
    /// surrogate id is listed. An empty id list is a no-op.
    pub fn mark_items_as(&mut self, user_id: &str, ids: &Vec<i64>, state: State)
        requires
            old(self).wf(),
        ensures
            final(self).wf(),
            final(self).next() == old(self).next(),
            final(self).rows().len() == old(self).rows().len(),
            forall|i: int|
                0 <= i < old(self).rows().len() ==> final(self).rows()[i] == {
                    let x = #[trigger] old(self).rows()[i];
                    if x.user_id == user_id@ && id_listed(ids@, x.id) {
                        apply_state(x, state)
                    } else {
                        x
                    }
                },
    {
        let ghost oldrows = self.rows();
        let n = self.items.len();
        let mut out: Vec<Item> = Vec::new();
        let mut i: usize = 0;
        while i < n
            invariant
                0 <= i <= n,
                n == self.items@.len(),
                oldrows == self.rows(),
                out@.len() == i as int,
                forall|j: int|
                    0 <= j < i ==> rows_of(out@)[j] == {
                        let x = #[trigger] oldrows[j];
                        if x.user_id == user_id@ && id_listed(ids@, x.id) {
                            apply_state(x, state)
                        } else {
                            x
                        }
                    },
            decreases n - i,
        {
            let mut it = self.items[i].duplicate();
            let sel = str_eq(it.user_id.as_str(), user_id) && ids_contain(ids, it.id);
            proof {
                lemma_id_listed(ids@, it.id);
            }
            if sel {
                set_state(&mut it, state);
            }
            out.push(it);
            i = i + 1;
        }
        self.items = out;
        proof {
            self.lemma_pointwise_wf(&ItemStore { items: old(self).items, next_id: old(self).next_id });
        }
    }

    /// Marks every row of the user as read.
    pub fn mark_all_as_read(&mut self, user_id: &str)
        requires
            old(self).wf(),
        ensures
            final(self).wf(),
            final(self).next() == old(self).next(),
            final(self).rows().len() == old(self).rows().len(),
            forall|i: int|
                0 <= i < old(self).rows().len() ==> final(self).rows()[i] == {
                    let x = #[trigger] old(self).rows()[i];
                    if x.user_id == user_id@ {
                        apply_state(x, State::READ)
                    } else {
                        x
                    }
                },
    {
        let ghost oldrows = self.rows();
        let n = self.items.len();
        let mut out: Vec<Item> = Vec::new();
        let mut i: usize = 0;
        while i < n
            invariant
                0 <= i <= n,
                n == self.items@.len(),
                oldrows == self.rows(),
                out@.len() == i as int,
                forall|j: int|
                    0 <= j < i ==> rows_of(out@)[j] == {
                        let x = #[trigger] oldrows[j];
                        if x.user_id == user_id@ {
                            apply_state(x, State::READ)
                        } else {
                            x
                        }
                    },
            decreases n - i,
        {
            let mut it = self.items[i].duplicate();
            if str_eq(it.user_id.as_str(), user_id) {
                set_state(&mut it, State::READ);
            }
            out.push(it);
            i = i + 1;
        }
        self.items = out;
        proof {
            self.lemma_pointwise_wf(&ItemStore { items: old(self).items, next_id: old(self).next_id });
        }
    }

    /// Marks the user's rows no newer than `older_than` as read; the bound
    /// is inclusive.
    pub fn mark_older_as_read(&mut self, user_id: &str, older_than: i64)
        requires
            old(self).wf(),
        ensures
            final(self).wf(),
            final(self).next() == old(self).next(),
            final(self).rows().len() == old(self).rows().len(),
            forall|i: int|
                0 <= i < old(self).rows().len() ==> final(self).rows()[i] == {
                    let x = #[trigger] old(self).rows()[i];
                    if x.user_id == user_id@ && x.created_at_ms <= older_than {
                        apply_state(x, State::READ)
                    } else {
                        x
                    }
                },
    {
        let ghost oldrows = self.rows();
        let n = self.items.len();
        let mut out: Vec<Item> = Vec::new();
        let mut i: usize = 0;
        while i < n
            invariant
                0 <= i <= n,
                n == self.items@.len(),
                oldrows == self.rows(),
                out@.len() == i as int,
                forall|j: int|
                    0 <= j < i ==> rows_of(out@)[j] == {
                        let x = #[trigger] oldrows[j];
                        if x.user_id == user_id@ && x.created_at_ms <= older_than {
                            apply_state(x, State::READ)
                        } else {
                            x
                        }
                    },
            decreases n - i,
        {
            let mut it = self.items[i].duplicate();
            if str_eq(it.user_id.as_str(), user_id) && it.created_at_ms <= older_than {
                set_state(&mut it, State::READ);
            }
            out.push(it);
            i = i + 1;
        }
        self.items = out;
        proof {
            self.lemma_pointwise_wf(&ItemStore { items: old(self).items, next_id: old(self).next_id });
        }
    }

    /// Applies one state transition to the row the key names.
    pub fn mark_as(&mut self, item_id: ItemId, state: State)
        requires
            old(self).wf(),
        ensures
            final(self).wf(),
            final(self).next() == old(self).next(),
            final(self).rows().len() == old(self).rows().len(),
            forall|i: int|
                0 <= i < old(self).rows().len() ==> final(self).rows()[i] == {
                    let x = #[trigger] old(self).rows()[i];
                    if x.user_id == item_id.user_id@ && x.subscription_id
                        == item_id.subscription_id@ && x.id == item_id.id as int {
                        apply_state(x, state)
                    } else {
                        x
                    }
                },
    {
        let ghost oldrows = self.rows();
        let n = self.items.len();
        let mut out: Vec<Item> = Vec::new();
        let mut i: usize = 0;
        while i < n
            invariant
                0 <= i <= n,
                n == self.items@.len(),
                oldrows == self.rows(),
                out@.len() == i as int,
                forall|j: int|
                    0 <= j < i ==> rows_of(out@)[j] == {
                        let x = #[trigger] oldrows[j];
                        if x.user_id == item_id.user_id@ && x.subscription_id
                            == item_id.subscription_id@ && x.id == item_id.id as int {
                            apply_state(x, state)
                        } else {
                            x
                        }
                    },
            decreases n - i,
        {
            let mut it = self.items[i].duplicate();
            if str_eq(it.user_id.as_str(), item_id.user_id.as_str()) && str_eq(
                it.subscription_id.as_str(),
                item_id.subscription_id.as_str(),
            ) && it.id == item_id.id {
                set_state(&mut it, state);
            }
            out.push(it);
            i = i + 1;
        }
        self.items = out;
        proof {
            self.lemma_pointwise_wf(&ItemStore { items: old(self).items, next_id: old(self).next_id });
        }
    }

    /// Retention pruning: irreversibly drops the user's rows whose
    /// `created_at_ms` is at or below the bound.
    pub fn delete_items(&mut self, user_id: &str, earlier_than: i64)
        requires
            old(self).wf(),
        ensures
            final(self).wf(),
            final(self).next() == old(self).next(),
            final(self).rows() == old(self).rows().filter(
                keep_after_prune(user_id@, earlier_than as int),
            ),
    {
        let ghost oldrows = self.rows();
        let ghost pd = keep_after_prune(user_id@, earlier_than as int);
        let n = self.items.len();
        let mut out: Vec<Item> = Vec::new();
        let mut i: usize = 0;
        proof {
            assert(oldrows.take(0) =~= Seq::<ItemView>::empty());
            assert(Seq::<ItemView>::empty().filter(pd) =~= Seq::<ItemView>::empty());
            assert(rows_of(out@) =~= Seq::<ItemView>::empty());
        }
        while i < n
            invariant
                0 <= i <= n,
                n == self.items@.len(),
                oldrows == self.rows(),
                pd == keep_after_prune(user_id@, earlier_than as int),
                rows_of(out@) == oldrows.take(i as int).filter(pd),
            decreases n - i,
        {
            let ghost sofar = rows_of(out@);
            let it = &self.items[i];
            proof {
                assert(it@ == oldrows[i as int]);
                assert(oldrows.take(i + 1) =~= oldrows.take(i as int).push(oldrows[i as int]));
                oldrows.take(i as int).lemma_filter_push(oldrows[i as int], pd);
                assert(keep_after_prune(user_id@, earlier_than as int)(it@) == !(it@.user_id
                    == user_id@ && it@.created_at_ms <= earlier_than as int));
            }
            let keep = !(str_eq(it.user_id.as_str(), user_id) && it.created_at_ms <= earlier_than);
            if keep {
                out.push(it.duplicate());
                proof {
                    assert(rows_of(out@) =~= sofar.push(it@));
                }
            }
            i = i + 1;
        }
        self.items = out;
        proof {
            assert(oldrows.take(n as int) =~= oldrows);
            let rows = self.rows();
            lemma_filter_keeps_pairs(oldrows, pd);
            assert forall|i2: int|
                0 <= i2 < rows.len() implies Self::valid_row(#[trigger] rows[i2], self.next()) by {
                broadcast use vstd::seq_lib::group_filter_ensures;

                assert(oldrows.contains(rows[i2])) by {
                    lemma_filter_element_of(oldrows, pd, i2);
                }
                let j = choose|j: int| 0 <= j < oldrows.len() && oldrows[j] == rows[i2];
            }
        }
    }

    /// Retention pruning across every user: drops all rows whose
    /// `created_at_ms` is at or below the bound.
    pub fn prune_all(&mut self, earlier_than: i64)
        requires
            old(self).wf(),
        ensures
            final(self).wf(),
            final(self).next() == old(self).next(),
            final(self).rows() == old(self).rows().filter(keep_fresh(earlier_than as int)),
    {
        let ghost oldrows = self.rows();
        let ghost pd = keep_fresh(earlier_than as int);
        let n = self.items.len();
        let mut out: Vec<Item> = Vec::new();
        let mut i: usize = 0;
        proof {
            assert(oldrows.take(0) =~= Seq::<ItemView>::empty());
            assert(Seq::<ItemView>::empty().filter(pd) =~= Seq::<ItemView>::empty());
            assert(rows_of(out@) =~= Seq::<ItemView>::empty());
        }
        while i < n
            invariant
                0 <= i <= n,
                n == self.items@.len(),
                oldrows == self.rows(),
                pd == keep_fresh(earlier_than as int),
                rows_of(out@) == oldrows.take(i as int).filter(pd),
            decreases n - i,
        {
            let ghost sofar = rows_of(out@);
            let it = &self.items[i];
            proof {
                assert(it@ == oldrows[i as int]);
                assert(oldrows.take(i + 1) =~= oldrows.take(i as int).push(oldrows[i as int]));
                oldrows.take(i as int).lemma_filter_push(oldrows[i as int], pd);
                assert(keep_fresh(earlier_than as int)(it@) == (it@.created_at_ms
                    > earlier_than as int));
            }
            if it.created_at_ms > earlier_than {
                out.push(it.duplicate());
                proof {
                    assert(rows_of(out@) =~= sofar.push(it@));
                }
            }
            i = i + 1;
        }
        self.items = out;
        proof {
            assert(oldrows.take(n as int) =~= oldrows);
            let rows = self.rows();
            lemma_filter_keeps_pairs(oldrows, pd);
            assert forall|i2: int|
                0 <= i2 < rows.len() implies Self::valid_row(#[trigger] rows[i2], self.next()) by {
                assert(oldrows.contains(rows[i2])) by {
                    lemma_filter_element_of(oldrows, pd, i2);
                }
                let j = choose|j: int| 0 <= j < oldrows.len() && oldrows[j] == rows[i2];
            }
        }
    }

    /// Point lookups: the user's rows whose surrogate id is listed, in
    /// store order. Unknown ids are simply absent from the result.
    pub fn get_items_by_id(&self, user_id: &str, ids: &Vec<i64>) -> (r: Vec<Item>)
        requires
            self.wf(),
        ensures
            rows_of(r@) == self.rows().filter(id_selected(user_id@, ids@)),
    {
        let ghost pd = id_selected(user_id@, ids@);
        let ghost srows = self.rows();
        let n = self.items.len();
        let mut out: Vec<Item> = Vec::new();
        let mut i: usize = 0;
        proof {
            assert(srows.take(0) =~= Seq::<ItemView>::empty());
            assert(Seq::<ItemView>::empty().filter(pd) =~= Seq::<ItemView>::empty());
            assert(rows_of(out@) =~= Seq::<ItemView>::empty());
        }
        while i < n
            invariant
                0 <= i <= n,
                n == self.items@.len(),
                srows == self.rows(),
                pd == id_selected(user_id@, ids@),
                rows_of(out@) == srows.take(i as int).filter(pd),
            decreases n - i,
        {
            let ghost sofar = rows_of(out@);
            let it = &self.items[i];
            proof {
                assert(it@ == srows[i as int]);
                assert(srows.take(i + 1) =~= srows.take(i as int).push(srows[i as int]));
                srows.take(i as int).lemma_filter_push(srows[i as int], pd);
                assert(id_selected(user_id@, ids@)(it@) == (it@.user_id == user_id@
                    && id_listed(ids@, it@.id)));
                lemma_id_listed(ids@, self.items@[i as int].id);
            }
            if str_eq(it.user_id.as_str(), user_id) && ids_contain(ids, it.id) {
                out.push(it.duplicate());
                proof {
                    assert(rows_of(out@) =~= sofar.push(it@));
                }
            }
            i = i + 1;
        }
        proof {
            assert(srows.take(n as int) =~= srows);
        }
        out
    }
}

/// The rows that survive a global prune.
pub open spec fn keep_fresh(earlier_than: int) -> spec_fn(ItemView) -> bool {
    |x: ItemView| x.created_at_ms > earlier_than
}

/// The rows that survive pruning for a user and bound.
pub open spec fn keep_after_prune(u: Seq<char>, earlier_than: int) -> spec_fn(ItemView) -> bool {
    |x: ItemView| !(x.user_id == u && x.created_at_ms <= earlier_than)
}

/// Whether some listed id denotes the row id.
pub open spec fn id_listed(ids: Seq<i64>, id: int) -> bool {
    exists|j: int| 0 <= j < ids.len() && #[trigger] ids[j] as int == id
}

/// A sequence of machine ids lists exactly the ids it contains.
pub proof fn lemma_id_listed(ids: Seq<i64>, id: i64)
    ensures
        id_listed(ids, id as int) == ids.contains(id),
{
    if id_listed(ids, id as int) {
        let j = choose|j: int| 0 <= j < ids.len() && #[trigger] ids[j] as int == id as int;
        assert(ids[j] == id);
    }
    if ids.contains(id) {
        let j = choose|j: int| 0 <= j < ids.len() && ids[j] == id;
        assert(ids[j] as int == id as int);
    }
}

/// The rows a point lookup selects.
pub open spec fn id_selected(u: Seq<char>, ids: Seq<i64>) -> spec_fn(ItemView) -> bool {
    |x: ItemView| x.user_id == u && id_listed(ids, x.id)
}

/// The user's rows whose surrogate id is listed, in store order.
pub open spec fn selected_rows(rows: Seq<ItemView>, u: Seq<char>, ids: Seq<i64>) -> Seq<ItemView> {
    rows.filter(id_selected(u, ids))
}

/// A page whose limit covers the whole result carries every row and no
/// continuation cursor.
pub proof fn lemma_page_complete(
    s: Seq<ItemView>,
    u: Seq<char>,
    f: Filter,
    offset: Option<String>,
    limit: int,
    desc: bool,
    r: Page<Item, String>,
)
    requires
        is_page(s, u, f, offset, limit, desc, r),
        listed(s, u, f, cursor_of(offset), desc).len() <= limit,
    ensures
        rows_of(r.items@) == listed(s, u, f, cursor_of(offset), desc),
        r.next_page_offset is None,
{
}

/// Pagination is exhaustive: resuming a listing from the cursor of the
/// row just past a page returns exactly the rows past that page, in
/// order. Chained with `is_page` and `lemma_page_complete`, every row of
/// the full result is returned exactly once, in the requested order,
/// across the pages.
pub proof fn lemma_pagination_exhaustive(
    s: Seq<ItemView>,
    u: Seq<char>,
    f: Filter,
    desc: bool,
    m: int,
)
    requires
        forall|i: int, j: int| 0 <= i < j < s.len() ==> key_lt(#[trigger] s[i], #[trigger] s[j]),
        0 <= m < listed(s, u, f, None, desc).len(),
    ensures
        ({
            let l = listed(s, u, f, None, desc);
            listed(s, u, f, Some((l[m].created_at_ms, l[m].id)), desc) == l.skip(m)
        }),
{
    let base = if desc {
        s.reverse()
    } else {
        s
    };
    let l = listed(s, u, f, None, desc);
    let c = Some((l[m].created_at_ms, l[m].id));
    let base_pred = passing(u, f, None, desc);
    let cursor_pred = passing(u, f, c, desc);
    let ac = |x: ItemView| after_cursor(x, c, desc);
    // the base is strictly ordered along the listing direction
    assert forall|i: int, j: int| 0 <= i < j < base.len() implies dir_lt(
        #[trigger] base[i],
        #[trigger] base[j],
        desc,
    ) by {
        if desc {
            assert(base[i] == s[s.len() - 1 - i] && base[j] == s[s.len() - 1 - j]);
            assert(key_lt(s[s.len() - 1 - j], s[s.len() - 1 - i]));
        }
    }
    // so is the full listing result
    lemma_filter_pairwise(base, base_pred, |a: ItemView, b: ItemView| dir_lt(a, b, desc));
    assert(forall|i: int, j: int|
        0 <= i < j < l.len() ==> dir_lt(#[trigger] l[i], #[trigger] l[j], desc));
    // the cursor predicate cuts the listing at position m
    lemma_filter_split(base, cursor_pred, base_pred, ac);
    assert(listed(s, u, f, c, desc) == l.filter(ac));
    assert(l =~= l.take(m) + l.skip(m));
    Seq::filter_distributes_over_add(l.take(m), l.skip(m), ac);
    assert forall|i: int| 0 <= i < l.take(m).len() implies !ac(#[trigger] l.take(m)[i]) by {
        assert(l.take(m)[i] == l[i]);
        assert(dir_lt(l[i], l[m], desc));
    }
    lemma_filter_all_false(l.take(m), ac);
    assert forall|i: int| 0 <= i < l.skip(m).len() implies ac(#[trigger] l.skip(m)[i]) by {
        assert(l.skip(m)[i] == l[m + i]);
        if i > 0 {
            assert(dir_lt(l[m], l[m + i], desc));
        }
    }
    lemma_filter_all_true(l.skip(m), ac);
    assert(l.filter(ac) =~= l.skip(m));
}

/// Retention: after a prune at `cutoff`, a row dated at or below the
/// cutoff is gone from the store and from every listing over it, while a
/// stored row dated above the cutoff is retained.
pub proof fn lemma_retention(
    s: Seq<ItemView>,
    u: Seq<char>,
    f: Filter,
    cursor: Option<(int, int)>,
    desc: bool,
    cutoff: int,
    x: ItemView,
)
    ensures
        x.created_at_ms <= cutoff ==> !s.filter(keep_fresh(cutoff)).contains(x),
        x.created_at_ms <= cutoff ==> !listed(s.filter(keep_fresh(cutoff)), u, f, cursor, desc).contains(x),
        s.contains(x) && x.created_at_ms > cutoff ==> s.filter(keep_fresh(cutoff)).contains(x),
{
    broadcast use vstd::seq_lib::group_filter_ensures;

    let pruned = s.filter(keep_fresh(cutoff));
    if x.created_at_ms <= cutoff {
        if pruned.contains(x) {
            let i = choose|i: int| 0 <= i < pruned.len() && pruned[i] == x;
            assert(keep_fresh(cutoff)(pruned[i]));
        }
        let l = listed(pruned, u, f, cursor, desc);
        if l.contains(x) {
            let base = if desc {
                pruned.reverse()
            } else {
                pruned
            };
            let i = choose|i: int| 0 <= i < l.len() && l[i] == x;
            crate::seqs::lemma_filter_element_of(base, passing(u, f, cursor, desc), i);
            let j = choose|j: int| 0 <= j < base.len() && base[j] == x;
            if desc {
                assert(pruned[base.len() - 1 - j] == x);
                assert(pruned.contains(x));
            }
        }
    }
    if s.contains(x) && x.created_at_ms > cutoff {
        let i = choose|i: int| 0 <= i < s.len() && s[i] == x;
        assert(keep_fresh(cutoff)(s[i]));
        assert(pruned.contains(s[i]));
    }
}

/// The row order along a listing direction.
pub open spec fn dir_lt(a: ItemView, b: ItemView, desc: bool) -> bool {
    if desc {
        key_lt(b, a)
    } else {
        key_lt(a, b)
    }
}

/// Filtering keeps every pairwise fact that held of the source, here the
/// three the store's invariant needs.
pub proof fn lemma_filter_keeps_pairs(s: Seq<ItemView>, pred: spec_fn(ItemView) -> bool)
    requires
        forall|i: int, j: int| 0 <= i < j < s.len() ==> key_lt(#[trigger] s[i], #[trigger] s[j]),
        forall|i: int, j: int|
            0 <= i < j < s.len() ==> !same_entry(#[trigger] s[i], #[trigger] s[j]),
        forall|i: int, j: int|
            0 <= i < j < s.len() ==> (#[trigger] s[i]).id != (#[trigger] s[j]).id,
    ensures
        forall|i: int, j: int|
            0 <= i < j < s.filter(pred).len() ==> key_lt(
                #[trigger] s.filter(pred)[i],
                #[trigger] s.filter(pred)[j],
            ),
        forall|i: int, j: int|
            0 <= i < j < s.filter(pred).len() ==> !same_entry(
                #[trigger] s.filter(pred)[i],
                #[trigger] s.filter(pred)[j],
            ),
        forall|i: int, j: int|
            0 <= i < j < s.filter(pred).len() ==> (#[trigger] s.filter(pred)[i]).id != (
            #[trigger] s.filter(pred)[j]).id,
    decreases s.len(),
{
    reveal(Seq::filter);
    if s.len() > 0 {
        let d = s.drop_last();
        assert(forall|i: int, j: int|
            0 <= i < j < d.len() ==> key_lt(#[trigger] d[i], #[trigger] d[j]));
        assert(forall|i: int, j: int|
            0 <= i < j < d.len() ==> !same_entry(#[trigger] d[i], #[trigger] d[j]));
        assert(forall|i: int, j: int|
            0 <= i < j < d.len() ==> (#[trigger] d[i]).id != (#[trigger] d[j]).id);
        lemma_filter_keeps_pairs(d, pred);
        let f = s.filter(pred);
        let fd = d.filter(pred);
        if pred(s.last()) {
            assert(f == fd.push(s.last()));
            assert forall|i: int, j: int| 0 <= i < j < f.len() implies key_lt(
                #[trigger] f[i],
                #[trigger] f[j],
            ) && !same_entry(f[i], f[j]) && f[i].id != f[j].id by {
                if j < f.len() - 1 {
                    assert(f[i] == fd[i] && f[j] == fd[j]);
                } else {
                    assert(f[j] == s.last());
                    assert(f[i] == fd[i]);
                    lemma_filter_element_of(d, pred, i);
                    let k = choose|k: int| 0 <= k < d.len() && d[k] == fd[i];
                    assert(s[k] == fd[i]);
                    assert(key_lt(s[k], s[s.len() - 1]));
                    assert(!same_entry(s[k], s[s.len() - 1]));
                    assert(s[k].id != s[s.len() - 1].id);
                }
            }
        } else {
            assert(f == fd);
        }
    }
}

} // verus!
