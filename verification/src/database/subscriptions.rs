//! Feed subscriptions and the subscription store, keyed by
//! `(user_id, id)`, with comma-delimited category labels.

use vstd::prelude::*;
use crate::errors::Errors;
use crate::text::{join_str, lemma_split_join, lemma_split_pieces_sep_free, sep_free, split_on,
    split_str, str_eq, views_of};

verus! {

/// One subscription of one user.
pub struct Subscription {
    pub user_id: String,
    pub id: String,
    pub url: String,
    pub title: String,
    pub description: String,
    pub feed_url: String,
    pub joined_categories: String,
    pub last_fetch_ms: i64,
}

/// The mathematical value of a `Subscription`.
pub ghost struct SubscriptionView {
    pub user_id: Seq<char>,
    pub id: Seq<char>,
    pub url: Seq<char>,
    pub title: Seq<char>,
    pub description: Seq<char>,
    pub feed_url: Seq<char>,
    pub joined_categories: Seq<char>,
    pub last_fetch_ms: int,
}

impl View for Subscription {
    type V = SubscriptionView;

    open spec fn view(&self) -> SubscriptionView {
        SubscriptionView {
            user_id: self.user_id@,
            id: self.id@,
            url: self.url@,
            title: self.title@,
            description: self.description@,
            feed_url: self.feed_url@,
            joined_categories: self.joined_categories@,
            last_fetch_ms: self.last_fetch_ms as int,
        }
    }
}

/// Whether a label piece is worth keeping.
pub open spec fn nonempty_label() -> spec_fn(Seq<char>) -> bool {
    |t: Seq<char>| t.len() > 0
}

/// The non-empty labels of a comma-delimited label string.
pub open spec fn labels_of(joined: Seq<char>) -> Seq<Seq<char>> {
    split_on(joined, ',').filter(nonempty_label())
}

/// Every stored label is non-empty and free of the delimiter.
pub proof fn lemma_label_clean(joined: Seq<char>, j: int)
    requires
        0 <= j < labels_of(joined).len(),
    ensures
        labels_of(joined)[j].len() > 0,
        sep_free(labels_of(joined)[j], ','),
{
    broadcast use vstd::seq_lib::group_filter_ensures;

    lemma_split_pieces_sep_free(joined, ',');
    crate::seqs::lemma_filter_element_of(split_on(joined, ','), nonempty_label(), j);
    let pieces = split_on(joined, ',');
    let k = choose|k: int| 0 <= k < pieces.len() && pieces[k] == labels_of(joined)[j];
}

/// The label list after appending each addition that is non-empty and not
/// yet present, in order.
pub open spec fn add_labels(ls: Seq<Seq<char>>, to_add: Seq<Seq<char>>) -> Seq<Seq<char>>
    decreases to_add.len(),
{
    if to_add.len() == 0 {
        ls
    } else {
        let rest = add_labels(ls, to_add.drop_last());
        if to_add.last().len() > 0 && !rest.contains(to_add.last()) {
            rest.push(to_add.last())
        } else {
            rest
        }
    }
}

impl Subscription {
    /// A field-for-field copy.
    pub fn duplicate(&self) -> (r: Subscription)
        ensures
            r@ == self@,
    {
        Subscription {
            user_id: self.user_id.clone(),
            id: self.id.clone(),
            url: self.url.clone(),
            title: self.title.clone(),
            description: self.description.clone(),
            feed_url: self.feed_url.clone(),
            joined_categories: self.joined_categories.clone(),
            last_fetch_ms: self.last_fetch_ms,
        }
    }

    /// The subscription's category labels: the non-empty pieces of the
    /// stored label string.
    pub fn categories(&self) -> (r: Vec<String>)
        ensures
            views_of(r@) == labels_of(self@.joined_categories),
    {
        let pieces = split_str(self.joined_categories.as_str(), ',');
        let n = pieces.len();
        let mut out: Vec<String> = Vec::new();
        let ghost pd = nonempty_label();
        proof {
            assert(views_of(pieces@).take(0) =~= Seq::<Seq<char>>::empty());
            assert(Seq::<Seq<char>>::empty().filter(pd) =~= Seq::<Seq<char>>::empty());
            assert(views_of(out@) =~= Seq::<Seq<char>>::empty());
        }
        let mut i: usize = 0;
        while i < n
            invariant
                0 <= i <= n,
                n == pieces@.len(),
                pd == nonempty_label(),
                views_of(out@) == views_of(pieces@).take(i as int).filter(pd),
            decreases n - i,
        {
            let ghost sofar = views_of(out@);
            proof {
                assert(views_of(pieces@).take(i + 1) =~= views_of(pieces@).take(i as int).push(
                    views_of(pieces@)[i as int],
                ));
                views_of(pieces@).take(i as int).lemma_filter_push(
                    views_of(pieces@)[i as int],
                    pd,
                );
                assert(views_of(pieces@)[i as int] == pieces@[i as int]@);
            }
            if !pieces[i].as_str().is_empty() {
                let piece = pieces[i].clone();
                out.push(piece);
                proof {
                    assert(views_of(out@) =~= sofar.push(pieces@[i as int]@));
                }
            }
            i = i + 1;
        }
        proof {
            assert(views_of(pieces@).take(n as int) =~= views_of(pieces@));
        }
        out
    }

    /// Rewrites the label string to hold exactly the given labels.
    fn set_categories(&mut self, labels: Vec<String>)
        requires
            forall|i: int| 0 <= i < labels@.len() ==> sep_free((#[trigger] labels@[i])@, ','),
        ensures
            final(self)@ == (SubscriptionView {
                joined_categories: final(self)@.joined_categories,
                ..old(self)@
            }),
            labels_of(final(self)@.joined_categories) == views_of(labels@).filter(
                nonempty_label(),
            ),
    {
        if labels.len() == 0 {
            self.joined_categories = String::new();
            proof {
                reveal_with_fuel(split_on, 2);
                assert(split_on(Seq::<char>::empty(), ',') =~= seq![Seq::<char>::empty()]);
                assert(labels_of(final(self)@.joined_categories) =~= Seq::<Seq<char>>::empty())
                    by {
                    reveal_with_fuel(Seq::filter, 3);
                    assert(seq![Seq::<char>::empty()].drop_last() =~= Seq::<Seq<char>>::empty());
                }
                assert(views_of(labels@).filter(nonempty_label()) =~= Seq::<Seq<char>>::empty())
                    by {
                    reveal_with_fuel(Seq::filter, 3);
                    assert(views_of(labels@) =~= Seq::<Seq<char>>::empty());
                }
            }
        } else {
            proof {
                reveal_strlit(",");
                assert(","@ =~= seq![',']);
            }
            let joined = join_str(&labels, ",", ',');
            self.joined_categories = joined;
            proof {
                lemma_split_join(views_of(labels@), ',');
            }
        }
    }

    /// Adds each non-empty label not already present; the label set stays
    /// free of duplicates it did not already have.
    pub fn add_categories(&mut self, to_add: &Vec<String>)
        requires
            forall|i: int| 0 <= i < to_add@.len() ==> sep_free((#[trigger] to_add@[i])@, ','),
        ensures
            final(self)@ == (SubscriptionView {
                joined_categories: final(self)@.joined_categories,
                ..old(self)@
            }),
            labels_of(final(self)@.joined_categories) == add_labels(
                labels_of(old(self)@.joined_categories),
                views_of(to_add@),
            ),
    {
        let mut labels = self.categories();
        proof {
            assert forall|j: int| 0 <= j < labels@.len() implies sep_free(
                (#[trigger] labels@[j])@,
                ',',
            ) && labels@[j]@.len() > 0 by {
                assert(views_of(labels@)[j] == labels@[j]@);
                lemma_label_clean(old(self)@.joined_categories, j);
            }
        }
        let ghost ls0 = views_of(labels@);
        let n = to_add.len();
        let mut i: usize = 0;
        while i < n
            invariant
                0 <= i <= n,
                n == to_add@.len(),
                forall|j: int| 0 <= j < to_add@.len() ==> sep_free((#[trigger] to_add@[j])@, ','),
                forall|j: int| 0 <= j < labels@.len() ==> sep_free((#[trigger] labels@[j])@, ','),
                forall|j: int| 0 <= j < labels@.len() ==> (#[trigger] labels@[j])@.len() > 0,
                views_of(labels@) == add_labels(ls0, views_of(to_add@).take(i as int)),
            decreases n - i,
        {
            let ghost before = views_of(labels@);
            proof {
                assert(views_of(to_add@).take(i + 1).drop_last() =~= views_of(to_add@).take(
                    i as int,
                ));
                assert(views_of(to_add@).take(i + 1).last() == to_add@[i as int]@);
            }
            let cand = &to_add[i];
            if !cand.as_str().is_empty() && !contains_string(&labels, cand.as_str()) {
                labels.push(cand.clone());
                proof {
                    assert(views_of(labels@) =~= before.push(to_add@[i as int]@));
                    assert(!before.contains(to_add@[i as int]@));
                }
            } else {
                proof {
                    if !(to_add@[i as int]@.len() == 0) {
                        assert(before.contains(to_add@[i as int]@));
                    }
                }
            }
            i = i + 1;
        }
        proof {
            assert(views_of(to_add@).take(n as int) =~= views_of(to_add@));
        }
        let ghost goal = views_of(labels@);
        self.set_categories(labels);
        proof {
            lemma_add_labels_nonempty(ls0, views_of(to_add@));
            lemma_filter_nonempty_id(goal);
        }
    }

    /// Removes every listed label, keeping the order of the rest.
    pub fn remove_categories(&mut self, to_remove: &Vec<String>)
        ensures
            final(self)@ == (SubscriptionView {
                joined_categories: final(self)@.joined_categories,
                ..old(self)@
            }),
            labels_of(final(self)@.joined_categories) == labels_of(
                old(self)@.joined_categories,
            ).filter(kept_label(views_of(to_remove@))),
    {
        let all = self.categories();
        proof {
            assert forall|j: int| 0 <= j < all@.len() implies sep_free(
                (#[trigger] all@[j])@,
                ',',
            ) by {
                assert(views_of(all@)[j] == all@[j]@);
                lemma_label_clean(old(self)@.joined_categories, j);
            }
        }
        let ghost ls0 = views_of(all@);
        let ghost pd = kept_label(views_of(to_remove@));
        let n = all.len();
        let mut labels: Vec<String> = Vec::new();
        proof {
            assert(ls0.take(0) =~= Seq::<Seq<char>>::empty());
            assert(Seq::<Seq<char>>::empty().filter(pd) =~= Seq::<Seq<char>>::empty());
            assert(views_of(labels@) =~= Seq::<Seq<char>>::empty());
        }
        let mut i: usize = 0;
        while i < n
            invariant
                0 <= i <= n,
                n == all@.len(),
                ls0 == views_of(all@),
                pd == kept_label(views_of(to_remove@)),
                forall|j: int| 0 <= j < all@.len() ==> sep_free((#[trigger] all@[j])@, ','),
                views_of(labels@) == ls0.take(i as int).filter(pd),
                forall|j: int|
                    0 <= j < labels@.len() ==> sep_free((#[trigger] labels@[j])@, ','),
            decreases n - i,
        {
            let ghost sofar = views_of(labels@);
            proof {
                assert(ls0.take(i + 1) =~= ls0.take(i as int).push(ls0[i as int]));
                ls0.take(i as int).lemma_filter_push(ls0[i as int], pd);
                assert(ls0[i as int] == all@[i as int]@);
                lemma_kept_label(views_of(to_remove@), all@[i as int]@);
            }
            if !contains_string(to_remove, all[i].as_str()) {
                let piece = all[i].clone();
                labels.push(piece);
                proof {
                    assert(views_of(labels@) =~= sofar.push(all@[i as int]@));
                }
            }
            i = i + 1;
        }
        proof {
            assert(ls0.take(n as int) =~= ls0);
        }
        let ghost goal = views_of(labels@);
        self.set_categories(labels);
        proof {
            assert forall|j: int| 0 <= j < goal.len() implies (#[trigger] goal[j]).len() > 0 by {
                crate::seqs::lemma_filter_element_of(ls0, pd, j);
                let k = choose|k: int| 0 <= k < ls0.len() && ls0[k] == goal[j];
                lemma_label_clean(old(self)@.joined_categories, k);
            }
            lemma_filter_nonempty_id(goal);
        }
    }
}

/// Whether a label survives a removal list.
pub open spec fn kept_label(to_remove: Seq<Seq<char>>) -> spec_fn(Seq<char>) -> bool {
    |t: Seq<char>| !to_remove.contains(t)
}

/// `kept_label` read on one label.
pub proof fn lemma_kept_label(to_remove: Seq<Seq<char>>, t: Seq<char>)
    ensures
        kept_label(to_remove)(t) == !to_remove.contains(t),
{
}

/// Adding labels to non-empty labels leaves every label non-empty.
pub proof fn lemma_add_labels_nonempty(ls: Seq<Seq<char>>, to_add: Seq<Seq<char>>)
    requires
        forall|i: int| 0 <= i < ls.len() ==> (#[trigger] ls[i]).len() > 0,
    ensures
        forall|i: int|
            0 <= i < add_labels(ls, to_add).len() ==> (#[trigger] add_labels(ls, to_add)[i]).len()
                > 0,
    decreases to_add.len(),
{
    if to_add.len() > 0 {
        lemma_add_labels_nonempty(ls, to_add.drop_last());
        let rest = add_labels(ls, to_add.drop_last());
        let r = add_labels(ls, to_add);
        if to_add.last().len() > 0 && !rest.contains(to_add.last()) {
            assert(r == rest.push(to_add.last()));
            assert forall|i: int| 0 <= i < r.len() implies (#[trigger] r[i]).len() > 0 by {
                if i < r.len() - 1 {
                    assert(r[i] == rest[i]);
                }
            }
        } else {
            assert(r == rest);
        }
    }
}

/// Filtering non-empty strings out of all-non-empty strings changes
/// nothing.
pub proof fn lemma_filter_nonempty_id(ls: Seq<Seq<char>>)
    requires
        forall|i: int| 0 <= i < ls.len() ==> (#[trigger] ls[i]).len() > 0,
    ensures
        ls.filter(nonempty_label()) == ls,
    decreases ls.len(),
{
    crate::seqs::lemma_filter_all_true(ls, nonempty_label());
}

// ---------------------------------------------------------------------------
// The store
// ---------------------------------------------------------------------------
/// The views of a vector of subscriptions.
pub open spec fn sub_views(v: Seq<Subscription>) -> Seq<SubscriptionView> {
    v.map_values(|x: Subscription| x@)
}

/// Whether a row carries the key.
pub open spec fn sub_key_is(x: SubscriptionView, u: Seq<char>, id: Seq<char>) -> bool {
    x.user_id == u && x.id == id
}

/// Whether two rows carry the same key.
pub open spec fn same_sub_key(a: SubscriptionView, b: SubscriptionView) -> bool {
    sub_key_is(a, b.user_id, b.id)
}

/// Whether some row carries the key.
pub open spec fn has_sub(s: Seq<SubscriptionView>, u: Seq<char>, id: Seq<char>) -> bool {
    exists|i: int| 0 <= i < s.len() && sub_key_is(#[trigger] s[i], u, id)
}

/// The position of the row with the key.
pub open spec fn sub_index(s: Seq<SubscriptionView>, u: Seq<char>, id: Seq<char>) -> int {
    choose|i: int| 0 <= i < s.len() && sub_key_is(#[trigger] s[i], u, id)
}

/// The subscription table of all users.
pub struct SubscriptionStore {
    subs: Vec<Subscription>,
}

impl SubscriptionStore {
    /// The stored rows, in insertion order.
    pub closed spec fn subs(&self) -> Seq<SubscriptionView> {
        sub_views(self.subs@)
    }

    /// The store's invariant: no `(user_id, id)` key repeats.
    pub open spec fn wf(&self) -> bool {
        forall|i: int, j: int|
            0 <= i < j < self.subs().len() ==> !same_sub_key(
                #[trigger] self.subs()[i],
                #[trigger] self.subs()[j],
            )
    }

    /// An empty store.
    pub fn new() -> (r: SubscriptionStore)
        ensures
            r.wf(),
            r.subs() =~= Seq::<SubscriptionView>::empty(),
    {
        let r = SubscriptionStore { subs: Vec::new() };
        proof {
            assert(r.subs() =~= Seq::<SubscriptionView>::empty());
        }
        r
    }

    /// The position of the key's row, if it is stored.
    fn find_index(&self, user_id: &str, id: &str) -> (r: Option<usize>)
        ensures
            match r {
                Some(i) => i < self.subs().len() && sub_key_is(self.subs()[i as int], user_id@, id@),
                None => !has_sub(self.subs(), user_id@, id@),
            },
    {
        let n = self.subs.len();
        let mut i: usize = 0;
        while i < n
            invariant
                0 <= i <= n,
                n == self.subs@.len(),
                forall|j: int| 0 <= j < i ==> !sub_key_is(#[trigger] self.subs()[j], user_id@, id@),
            decreases n - i,
        {
            let x = &self.subs[i];
            if str_eq(x.user_id.as_str(), user_id) && str_eq(x.id.as_str(), id) {
                proof {
                    assert(sub_key_is(self.subs()[i as int], user_id@, id@));
                }
                return Some(i);
            }
            i = i + 1;
        }
        None
    }

    /// Creates the subscription, or replaces the row that already carries
    /// its key: re-subscribing is idempotent.
    pub fn insert_subscription(&mut self, subscription: Subscription)
        requires
            old(self).wf(),
        ensures
            final(self).wf(),
            has_sub(old(self).subs(), subscription@.user_id, subscription@.id) ==> final(self).subs()
                == old(self).subs().update(
                sub_index(old(self).subs(), subscription@.user_id, subscription@.id),
                subscription@,
            ),
            !has_sub(old(self).subs(), subscription@.user_id, subscription@.id)
                ==> final(self).subs() == old(self).subs().push(subscription@),
    {
        let ghost s0 = self.subs();
        let ghost key_u = subscription@.user_id;
        let ghost key_id = subscription@.id;
        match self.find_index(subscription.user_id.as_str(), subscription.id.as_str()) {
            Some(i) => {
                self.subs.remove(i);
                self.subs.insert(i, subscription);
                proof {
                    assert(has_sub(s0, key_u, key_id)) by {
                        assert(sub_key_is(s0[i as int], key_u, key_id));
                    }
                    let j = sub_index(s0, key_u, key_id);
                    assert(sub_key_is(s0[j], key_u, key_id));
                    assert(j == i) by {
                        if j != i {
                            if j < i {
                                assert(!sub_key_is(s0[j], s0[i as int].user_id, s0[i as int].id));
                            } else {
                                assert(!sub_key_is(s0[i as int], s0[j].user_id, s0[j].id));
                            }
                        }
                    }
                    let s1 = self.subs();
                    assert(s1 =~= s0.update(i as int, subscription@));
                    assert forall|a: int, b: int|
                        0 <= a < b < s1.len() implies !same_sub_key(
                        #[trigger] s1[a],
                        #[trigger] s1[b],
                    ) by {
                        if a != i && b != i {
                            assert(s1[a] == s0[a]);
                            assert(s1[b] == s0[b]);
                        } else if a == i {
                            assert(sub_key_is(subscription@, s0[a].user_id, s0[a].id));
                            assert(s1[b] == s0[b]);
                        } else {
                            assert(sub_key_is(subscription@, s0[b].user_id, s0[b].id));
                            assert(s1[a] == s0[a]);
                        }
                    }
                }
            },
            None => {
                self.subs.push(subscription);
                proof {
                    let s1 = self.subs();
                    assert(s1 =~= s0.push(subscription@));
                    assert forall|a: int, b: int|
                        0 <= a < b < s1.len() implies !same_sub_key(
                        #[trigger] s1[a],
                        #[trigger] s1[b],
                    ) by {
                        if b == s1.len() - 1 {
                            assert(s1[a] == s0[a]);
                            if sub_key_is(s0[a], key_u, key_id) {
                                assert(has_sub(s0, key_u, key_id));
                            }
                        } else {
                            assert(s1[a] == s0[a]);
                            assert(s1[b] == s0[b]);
                        }
                    }
                }
            },
        }
    }

    /// Replaces the row that carries the subscription's key; fails with
    /// `SubscriptionNotFound`, changing nothing, when there is none.
    pub fn update_subscription(&mut self, subscription: Subscription) -> (r: Result<
        Subscription,
        Errors,
    >)
        requires
            old(self).wf(),
        ensures
            final(self).wf(),
            match r {
                Ok(out) => {
                    &&& has_sub(old(self).subs(), subscription@.user_id, subscription@.id)
                    &&& final(self).subs() == old(self).subs().update(
                        sub_index(old(self).subs(), subscription@.user_id, subscription@.id),
                        out@,
                    )
                    &&& out@ == subscription@
                },
                Err(e) => {
                    &&& e is SubscriptionNotFound
                    &&& !has_sub(old(self).subs(), subscription@.user_id, subscription@.id)
                    &&& *final(self) == *old(self)
                },
            },
    {
        match self.find_index(subscription.user_id.as_str(), subscription.id.as_str()) {
            Some(_) => {
                let out = subscription.duplicate();
                self.insert_subscription(subscription);
                Ok(out)
            },
            None => Err(Errors::SubscriptionNotFound),
        }
    }

    /// Drops the row that carries the key, if any.
    pub fn remove_subscription(&mut self, user_id: &str, id: &str)
        requires
            old(self).wf(),
        ensures
            final(self).wf(),
            !has_sub(final(self).subs(), user_id@, id@),
            final(self).subs().len() >= old(self).subs().len() - 1,
            forall|x: SubscriptionView|
                #[trigger] final(self).subs().contains(x) <==> (old(self).subs().contains(x)
                    && !sub_key_is(x, user_id@, id@)),
    {
        let ghost s0 = self.subs();
        match self.find_index(user_id, id) {
            Some(i) => {
                self.subs.remove(i);
                proof {
                    let s1 = self.subs();
                    assert(s1 =~= s0.remove(i as int));
                    assert(forall|j: int| 0 <= j < i ==> s1[j] == s0[j]);
                    assert(forall|j: int| i <= j < s1.len() ==> s1[j] == s0[j + 1]);
                    assert forall|a: int, b: int| 0 <= a < b < s1.len() implies !same_sub_key(
                        #[trigger] s1[a],
                        #[trigger] s1[b],
                    ) by {
                        let a0: int = if a < i { a } else { a + 1 };
                        let b0: int = if b < i { b } else { b + 1 };
                        assert(s1[a] == s0[a0] && s1[b] == s0[b0]);
                    }
                    assert forall|x: SubscriptionView| #[trigger] s1.contains(x) implies (
                    s0.contains(x) && !sub_key_is(x, user_id@, id@)) by {
                        let j = choose|j: int| 0 <= j < s1.len() && s1[j] == x;
                        let j0: int = if j < i { j } else { j + 1 };
                        assert(s0[j0] == x);
                        if sub_key_is(x, user_id@, id@) {
                            // two rows would carry the key
                            if j0 < i {
                                assert(!sub_key_is(s0[j0], s0[i as int].user_id, s0[i as int].id));
                            } else {
                                assert(!sub_key_is(s0[i as int], s0[j0].user_id, s0[j0].id));
                            }
                        }
                    }
                    assert forall|x: SubscriptionView|
                        s0.contains(x) && !sub_key_is(x, user_id@, id@) implies #[trigger] s1.contains(
                        x,
                    ) by {
                        let j = choose|j: int| 0 <= j < s0.len() && s0[j] == x;
                        if j < i {
                            assert(s1[j] == x);
                        } else {
                            assert(j != i);
                            assert(s1[j - 1] == x);
                        }
                    }
                    if has_sub(s1, user_id@, id@) {
                        let j = choose|j: int|
                            0 <= j < s1.len() && sub_key_is(#[trigger] s1[j], user_id@, id@);
                        assert(s1.contains(s1[j]));
                    }
                }
            },
            None => {
                proof {
                    let s1 = self.subs();
                    assert forall|x: SubscriptionView| #[trigger] s1.contains(x) implies (
                    s0.contains(x) && !sub_key_is(x, user_id@, id@)) by {
                        let j = choose|j: int| 0 <= j < s1.len() && s1[j] == x;
                        if sub_key_is(x, user_id@, id@) {
                            assert(has_sub(s0, user_id@, id@));
                        }
                    }
                    if has_sub(s1, user_id@, id@) {
                        let j = choose|j: int|
                            0 <= j < s1.len() && sub_key_is(#[trigger] s1[j], user_id@, id@);
                        assert(has_sub(s0, user_id@, id@));
                    }
                }
            },
        }
    }

    /// The row that carries the key, if it is stored.
    pub fn get_subscription(&self, user_id: &str, id: &str) -> (r: Option<Subscription>)
        requires
            self.wf(),
        ensures
            match r {
                Some(x) => {
                    &&& has_sub(self.subs(), user_id@, id@)
                    &&& self.subs().contains(x@)
                    &&& sub_key_is(x@, user_id@, id@)
                },
                None => !has_sub(self.subs(), user_id@, id@),
            },
    {
        match self.find_index(user_id, id) {
            Some(i) => {
                let x = self.subs[i].duplicate();
                proof {
                    assert(has_sub(self.subs(), user_id@, id@)) by {
                        assert(sub_key_is(self.subs()[i as int], user_id@, id@));
                    }
                    assert(self.subs().contains(x@)) by {
                        assert(self.subs()[i as int] == x@);
                    }
                }
                Some(x)
            },
            None => None,
        }
    }

    /// Batched lookup: the user's rows whose id is listed, in store
    /// order. Unknown ids are simply absent from the result.
    pub fn get_subscriptions(&self, user_id: &str, ids: &Vec<String>) -> (r: Vec<Subscription>)
        requires
            self.wf(),
        ensures
            sub_views(r@) == self.subs().filter(sub_selected(user_id@, views_of(ids@))),
    {
        let ghost pd = sub_selected(user_id@, views_of(ids@));
        let ghost srows = self.subs();
        let n = self.subs.len();
        let mut out: Vec<Subscription> = Vec::new();
        proof {
            assert(srows.take(0) =~= Seq::<SubscriptionView>::empty());
            assert(Seq::<SubscriptionView>::empty().filter(pd) =~= Seq::<
                SubscriptionView,
            >::empty());
            assert(sub_views(out@) =~= Seq::<SubscriptionView>::empty());
        }
        let mut i: usize = 0;
        while i < n
            invariant
                0 <= i <= n,
                n == self.subs@.len(),
                srows == self.subs(),
                pd == sub_selected(user_id@, views_of(ids@)),
                sub_views(out@) == srows.take(i as int).filter(pd),
            decreases n - i,
        {
            let ghost sofar = sub_views(out@);
            let x = &self.subs[i];
            proof {
                assert(x@ == srows[i as int]);
                assert(srows.take(i + 1) =~= srows.take(i as int).push(srows[i as int]));
                srows.take(i as int).lemma_filter_push(srows[i as int], pd);
                assert(sub_selected(user_id@, views_of(ids@))(x@) == (x@.user_id == user_id@
                    && views_of(ids@).contains(x@.id)));
            }
            if str_eq(x.user_id.as_str(), user_id) && contains_string(ids, x.id.as_str()) {
                out.push(x.duplicate());
                proof {
                    assert(sub_views(out@) =~= sofar.push(x@));
                }
            }
            i = i + 1;
        }
        proof {
            assert(srows.take(n as int) =~= srows);
        }
        out
    }

    /// Every subscription of the user, in store order.
    pub fn list_user_subscriptions(&self, user_id: &str) -> (r: Vec<Subscription>)
        ensures
            sub_views(r@) == self.subs().filter(sub_of_user(user_id@)),
    {
        let ghost pd = sub_of_user(user_id@);
        let ghost srows = self.subs();
        let n = self.subs.len();
        let mut out: Vec<Subscription> = Vec::new();
        proof {
            assert(srows.take(0) =~= Seq::<SubscriptionView>::empty());
            assert(Seq::<SubscriptionView>::empty().filter(pd) =~= Seq::<
                SubscriptionView,
            >::empty());
            assert(sub_views(out@) =~= Seq::<SubscriptionView>::empty());
        }
        let mut i: usize = 0;
        while i < n
            invariant
                0 <= i <= n,
                n == self.subs@.len(),
                srows == self.subs(),
                pd == sub_of_user(user_id@),
                sub_views(out@) == srows.take(i as int).filter(pd),
            decreases n - i,
        {
            let ghost sofar = sub_views(out@);
            let x = &self.subs[i];
            proof {
                assert(x@ == srows[i as int]);
                assert(srows.take(i + 1) =~= srows.take(i as int).push(srows[i as int]));
                srows.take(i as int).lemma_filter_push(srows[i as int], pd);
                assert(sub_of_user(user_id@)(x@) == (x@.user_id == user_id@));
            }
            if str_eq(x.user_id.as_str(), user_id) {
                out.push(x.duplicate());
                proof {
                    assert(sub_views(out@) =~= sofar.push(x@));
                }
            }
            i = i + 1;
        }
        proof {
            assert(srows.take(n as int) =~= srows);
        }
        out
    }

    /// Every subscription of every user, in store order; what the global
    /// refresh cycle walks.
    pub fn list_all_subscriptions(&self) -> (r: Vec<Subscription>)
        ensures
            sub_views(r@) == self.subs(),
    {
        let n = self.subs.len();
        let mut out: Vec<Subscription> = Vec::new();
        let mut i: usize = 0;
        proof {
            assert(sub_views(out@) =~= self.subs().take(0));
        }
        while i < n
            invariant
                0 <= i <= n,
                n == self.subs@.len(),
                sub_views(out@) == self.subs().take(i as int),
            decreases n - i,
        {
            let ghost sofar = sub_views(out@);
            let x = &self.subs[i];
            out.push(x.duplicate());
            proof {
                assert(sub_views(out@) =~= sofar.push(self.subs()[i as int]));
                assert(self.subs().take(i + 1) =~= self.subs().take(i as int).push(
                    self.subs()[i as int],
                ));
            }
            i = i + 1;
        }
        proof {
            assert(self.subs().take(n as int) =~= self.subs());
        }
        out
    }
}

/// The rows a batched lookup selects.
pub open spec fn sub_selected(u: Seq<char>, ids: Seq<Seq<char>>) -> spec_fn(SubscriptionView) -> bool {
    |x: SubscriptionView| x.user_id == u && ids.contains(x.id)
}

/// The rows of one user.
pub open spec fn sub_of_user(u: Seq<char>) -> spec_fn(SubscriptionView) -> bool {
    |x: SubscriptionView| x.user_id == u
}

/// Whether the vector holds a string with this text.
pub fn contains_string(v: &Vec<String>, s: &str) -> (r: bool)
    ensures
        r == views_of(v@).contains(s@),
{
    let n = v.len();
    let mut i: usize = 0;
    while i < n
        invariant
            0 <= i <= n,
            n == v@.len(),
            forall|j: int| 0 <= j < i ==> (#[trigger] v@[j])@ != s@,
        decreases n - i,
    {
        if str_eq(v[i].as_str(), s) {
            proof {
                assert(views_of(v@)[i as int] == s@);
            }
            return true;
        }
        i = i + 1;
    }
    proof {
        if views_of(v@).contains(s@) {
            let j = choose|j: int| 0 <= j < views_of(v@).len() && views_of(v@)[j] == s@;
            assert(v@[j]@ == s@);
        }
    }
    false
}

} // verus!
