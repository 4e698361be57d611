//! Splitting and joining of delimited strings, and prefix/suffix tests.
//! Category labels, tokens and wire ids are all delimited encodings.

use vstd::prelude::*;

verus! {

/// The pieces of `s` between occurrences of `sep`; always at least one
/// piece, and empty pieces are kept (as `str::split` keeps them).
pub open spec fn split_on(s: Seq<char>, sep: char) -> Seq<Seq<char>>
    decreases s.len(),
{
    if s.len() == 0 {
        seq![Seq::empty()]
    } else if s.last() == sep {
        split_on(s.drop_last(), sep).push(Seq::empty())
    } else {
        let r = split_on(s.drop_last(), sep);
        r.update(r.len() - 1, r.last().push(s.last()))
    }
}

/// The pieces joined back with `sep` between them.
pub open spec fn join_with(parts: Seq<Seq<char>>, sep: char) -> Seq<char>
    decreases parts.len(),
{
    if parts.len() == 0 {
        Seq::empty()
    } else if parts.len() == 1 {
        parts[0]
    } else {
        join_with(parts.drop_last(), sep) + seq![sep] + parts.last()
    }
}

pub open spec fn sep_free(s: Seq<char>, sep: char) -> bool {
    forall|i: int| 0 <= i < s.len() ==> s[i] != sep
}

pub proof fn lemma_split_len(s: Seq<char>, sep: char)
    ensures
        split_on(s, sep).len() >= 1,
    decreases s.len(),
{
    if s.len() > 0 {
        lemma_split_len(s.drop_last(), sep);
    }
}

/// Splitting a separator-free string gives the string itself, alone.
pub proof fn lemma_split_sep_free(s: Seq<char>, sep: char)
    requires
        sep_free(s, sep),
    ensures
        split_on(s, sep) =~~= seq![s],
    decreases s.len(),
{
    if s.len() == 0 {
        assert(split_on(s, sep) =~~= seq![s]);
    } else {
        assert(sep_free(s.drop_last(), sep));
        lemma_split_sep_free(s.drop_last(), sep);
        assert(s.drop_last().push(s.last()) =~= s);
    }
}

/// Appending a separator ends the last piece.
pub proof fn lemma_split_push_sep(s: Seq<char>, sep: char)
    ensures
        split_on(s.push(sep), sep) == split_on(s, sep).push(Seq::empty()),
{
    assert(s.push(sep).drop_last() =~= s);
}

/// Appending an ordinary character extends the last piece.
pub proof fn lemma_split_push_char(s: Seq<char>, sep: char, c: char)
    requires
        c != sep,
    ensures
        ({
            let r = split_on(s, sep);
            split_on(s.push(c), sep) == r.update(r.len() - 1, r.last().push(c))
        }),
{
    assert(s.push(c).drop_last() =~= s);
}

/// Appending a separator-free tail extends the last piece by the tail.
pub proof fn lemma_split_append_free(s: Seq<char>, b: Seq<char>, sep: char)
    requires
        sep_free(b, sep),
    ensures
        ({
            let r = split_on(s, sep);
            split_on(s + b, sep) =~~= r.update(r.len() - 1, r.last() + b)
        }),
    decreases b.len(),
{
    let r = split_on(s, sep);
    lemma_split_len(s, sep);
    if b.len() == 0 {
        assert(s + b =~= s);
        assert(r.last() + b =~= r.last());
        assert(r.update(r.len() - 1, r.last()) =~= r);
    } else {
        assert(sep_free(b.drop_last(), sep));
        lemma_split_append_free(s, b.drop_last(), sep);
        let r1 = split_on(s + b.drop_last(), sep);
        assert(s + b =~= (s + b.drop_last()).push(b.last()));
        lemma_split_push_char(s + b.drop_last(), sep, b.last());
        assert(r1.last() =~= r.last() + b.drop_last());
        assert(r.last() + b.drop_last() + seq![b.last()] =~= r.last() + b);
    }
}

/// Splitting after joining separator-free pieces returns the pieces.
pub proof fn lemma_split_join(parts: Seq<Seq<char>>, sep: char)
    requires
        parts.len() >= 1,
        forall|i: int| 0 <= i < parts.len() ==> sep_free(#[trigger] parts[i], sep),
    ensures
        split_on(join_with(parts, sep), sep) =~~= parts,
    decreases parts.len(),
{
    if parts.len() == 1 {
        lemma_split_sep_free(parts[0], sep);
    } else {
        let front = parts.drop_last();
        assert(forall|i: int| 0 <= i < front.len() ==> sep_free(#[trigger] front[i], sep));
        lemma_split_join(front, sep);
        let a = join_with(front, sep);
        assert(a + seq![sep] =~= a.push(sep));
        lemma_split_push_sep(a, sep);
        lemma_split_append_free(a.push(sep), parts.last(), sep);
        let r1 = split_on(a.push(sep), sep);
        assert(r1.last() + parts.last() =~= parts.last());
        assert(join_with(parts, sep) =~= a.push(sep) + parts.last());
        assert(split_on(join_with(parts, sep), sep) =~~= front.push(parts.last()));
        assert(front.push(parts.last()) =~~= parts);
    }
}

/// Every piece of a split is free of the separator.
pub proof fn lemma_split_pieces_sep_free(s: Seq<char>, sep: char)
    ensures
        forall|i: int|
            0 <= i < split_on(s, sep).len() ==> sep_free(#[trigger] split_on(s, sep)[i], sep),
    decreases s.len(),
{
    if s.len() > 0 {
        lemma_split_pieces_sep_free(s.drop_last(), sep);
        let r0 = split_on(s.drop_last(), sep);
        lemma_split_len(s.drop_last(), sep);
        let r = split_on(s, sep);
        if s.last() == sep {
            assert forall|i: int| 0 <= i < r.len() implies sep_free(#[trigger] r[i], sep) by {
                if i < r.len() - 1 {
                    assert(r[i] == r0[i]);
                }
            }
        } else {
            assert forall|i: int| 0 <= i < r.len() implies sep_free(#[trigger] r[i], sep) by {
                if i < r.len() - 1 {
                    assert(r[i] == r0[i]);
                } else {
                    assert(r[i] == r0[r0.len() - 1].push(s.last()));
                    assert(sep_free(r0[r0.len() - 1], sep));
                    assert(forall|q: int|
                        0 <= q < r[i].len() - 1 ==> r[i][q] == r0[r0.len() - 1][q]);
                }
            }
        }
    }
}

/// The views of a vector of strings.
pub open spec fn views_of(v: Seq<String>) -> Seq<Seq<char>> {
    v.map_values(|t: String| t@)
}

/// Splits `s` at every occurrence of `sep`, keeping empty pieces.
pub fn split_str(s: &str, sep: char) -> (r: Vec<String>)
    ensures
        views_of(r@) == split_on(s@, sep),
{
    let len = s.unicode_len();
    let mut parts: Vec<String> = Vec::new();
    let mut start: usize = 0;
    let mut i: usize = 0;
    proof {
        assert(views_of(parts@).push(s@.subrange(0, 0)) =~~= split_on(s@.subrange(0, 0), sep));
    }
    while i < len
        invariant
            0 <= start <= i <= len,
            len == s@.len(),
            sep_free(s@.subrange(start as int, i as int), sep),
            views_of(parts@).push(s@.subrange(start as int, i as int))
                =~~= split_on(s@.subrange(0, i as int), sep),
        decreases len - i,
    {
        let c = s.get_char(i);
        proof {
            assert(s@.subrange(0, i + 1) =~= s@.subrange(0, i as int).push(s@[i as int]));
        }
        if c == sep {
            let piece = s.substring_char(start, i);
            parts.push(piece.to_owned());
            proof {
                lemma_split_push_sep(s@.subrange(0, i as int), sep);
                assert(views_of(parts@)
                    =~~= views_of(parts@.drop_last()).push(s@.subrange(start as int, i as int)));
                assert(s@.subrange(i + 1, i + 1) =~= Seq::<char>::empty());
            }
            start = i + 1;
        } else {
            proof {
                lemma_split_push_char(s@.subrange(0, i as int), sep, s@[i as int]);
                let r = split_on(s@.subrange(0, i as int), sep);
                let r2 = split_on(s@.subrange(0, i + 1), sep);
                assert(r.len() - 1 == views_of(parts@).len());
                assert(r2 =~~= views_of(parts@).push(s@.subrange(start as int, i + 1)));
                assert(sep_free(s@.subrange(start as int, i + 1), sep));
            }
        }
        i = i + 1;
    }
    let piece = s.substring_char(start, len);
    parts.push(piece.to_owned());
    proof {
        assert(s@.subrange(0, len as int) =~= s@);
        assert(views_of(parts@)
            =~~= views_of(parts@.drop_last()).push(s@.subrange(start as int, len as int)));
    }
    parts
}

/// Joins pieces with `sep` between them; the inverse of `split_str`.
pub fn join_str(parts: &Vec<String>, sep_str: &str, sep: char) -> (r: String)
    requires
        parts@.len() >= 1,
        sep_str@ == seq![sep],
    ensures
        r@ == join_with(views_of(parts@), sep),
{
    let mut r = String::new();
    let mut i: usize = 0;
    let n = parts.len();
    while i < n
        invariant
            0 <= i <= n,
            n == parts@.len() >= 1,
            sep_str@ == seq![sep],
            i == 0 ==> r@ == Seq::<char>::empty(),
            i > 0 ==> r@ == join_with(views_of(parts@).subrange(0, i as int), sep),
        decreases n - i,
    {
        if i > 0 {
            r.append(sep_str);
        }
        r.append(parts[i].as_str());
        proof {
            let vs = views_of(parts@);
            if i > 0 {
                assert(vs.subrange(0, i + 1).drop_last() =~~= vs.subrange(0, i as int));
                assert(vs.subrange(0, i + 1).len() > 1);
                assert(r@ =~= join_with(vs.subrange(0, i + 1), sep));
            } else {
                assert(r@ =~= vs[0]);
                assert(vs.subrange(0, 1) =~~= seq![vs[0]]);
            }
        }
        i = i + 1;
    }
    proof {
        assert(views_of(parts@).subrange(0, n as int) =~~= views_of(parts@));
    }
    r
}

/// Whether `s` begins with `p`.
pub fn str_starts_with(s: &str, p: &str) -> (r: bool)
    ensures
        r == (s@.len() >= p@.len() && s@.subrange(0, p@.len() as int) == p@),
{
    let slen = s.unicode_len();
    let plen = p.unicode_len();
    if slen < plen {
        proof {
            assert(s@.len() < p@.len());
        }
        return false;
    }
    let mut i: usize = 0;
    while i < plen
        invariant
            0 <= i <= plen <= slen,
            slen == s@.len(),
            plen == p@.len(),
            forall|j: int| 0 <= j < i ==> s@[j] == p@[j],
        decreases plen - i,
    {
        if s.get_char(i) != p.get_char(i) {
            proof {
                assert(s@.subrange(0, p@.len() as int)[i as int] != p@[i as int]);
            }
            return false;
        }
        i = i + 1;
    }
    proof {
        assert(s@.subrange(0, p@.len() as int) =~= p@);
    }
    true
}

/// Whether `s` ends with `p`.
pub fn str_ends_with(s: &str, p: &str) -> (r: bool)
    ensures
        r == (s@.len() >= p@.len() && s@.subrange(s@.len() - p@.len(), s@.len() as int) == p@),
{
    let slen = s.unicode_len();
    let plen = p.unicode_len();
    if slen < plen {
        proof {
            assert(s@.len() < p@.len());
        }
        return false;
    }
    let off = slen - plen;
    let mut i: usize = 0;
    while i < plen
        invariant
            0 <= i <= plen <= slen,
            slen == s@.len(),
            plen == p@.len(),
            off == slen - plen,
            forall|j: int| 0 <= j < i ==> s@[off + j] == p@[j],
        decreases plen - i,
    {
        if s.get_char(off + i) != p.get_char(i) {
            proof {
                assert(s@.subrange(s@.len() - p@.len(), s@.len() as int)[i as int] != p@[i as int]);
            }
            return false;
        }
        i = i + 1;
    }
    proof {
        assert(s@.subrange(s@.len() - p@.len(), s@.len() as int) =~= p@);
    }
    true
}

/// Whether two string slices hold the same characters.
pub fn str_eq(s: &str, t: &str) -> (r: bool)
    ensures
        r == (s@ == t@),
{
    let slen = s.unicode_len();
    let tlen = t.unicode_len();
    if slen != tlen {
        return false;
    }
    let mut i: usize = 0;
    while i < slen
        invariant
            0 <= i <= slen,
            slen == s@.len() == t@.len(),
            forall|j: int| 0 <= j < i ==> s@[j] == t@[j],
        decreases slen - i,
    {
        if s.get_char(i) != t.get_char(i) {
            return false;
        }
        i = i + 1;
    }
    proof {
        assert(s@ =~= t@);
    }
    true
}

} // verus!
