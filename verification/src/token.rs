//! Session tokens: `"<sid>.<expire_at>.<user id>"`, with a lenient parser
//! and a proved encode/parse round trip.

use vstd::prelude::*;
use crate::common::{current_time_s, is_alnum_char, new_id};
use crate::num::{all_dec_digits, dec_seq, dec_val, is_dec_digit, lemma_dec_seq_round_trip,
    parse_u64_dec, u64_to_dec};
use crate::text::{join_with, lemma_split_join, sep_free, split_on, split_str};

verus! {

/// How long a fresh token lives, in seconds.
pub const TOKEN_LIFETIME_S: u64 = 14 * 24 * 60 * 60;

pub struct Token {
    pub id: String,
    pub expire_at: u64,
    pub sid: String,
}

/// What parsing a token string yields: the three dot-separated fields,
/// with the middle one read as a decimal number.
pub open spec fn token_parse(s: Seq<char>) -> Option<(Seq<char>, nat, Seq<char>)> {
    let parts = split_on(s, '.');
    if parts.len() == 3 && parts[1].len() > 0 && all_dec_digits(parts[1]) && dec_val(parts[1])
        <= u64::MAX {
        Some((parts[0], dec_val(parts[1]), parts[2]))
    } else {
        None
    }
}

/// The wire rendering of a token.
pub open spec fn token_string(sid: Seq<char>, expire_at: nat, id: Seq<char>) -> Seq<char> {
    sid + seq!['.'] + dec_seq(expire_at) + seq!['.'] + id
}

impl Token {
    /// A fresh token for `id`, expiring one lifetime from now.
    pub fn new(id: &str) -> (r: Token)
        ensures
            r.id@ == id@,
            r.sid@.len() == 20,
            forall|i: int| 0 <= i < r.sid@.len() ==> is_alnum_char(#[trigger] r.sid@[i]),
            r.expire_at >= TOKEN_LIFETIME_S,
    {
        let now = current_time_s() as u64;
        Token { id: id.to_owned(), expire_at: now + TOKEN_LIFETIME_S, sid: new_id(20) }
    }

    /// Renders the token as `"<sid>.<expire_at>.<id>"`.
    pub fn to_string(&self) -> (r: String)
        ensures
            r@ == token_string(self.sid@, self.expire_at as nat, self.id@),
    {
        proof {
            reveal_strlit(".");
        }
        let mut s = self.sid.clone();
        s.append(".");
        s.append(u64_to_dec(self.expire_at).as_str());
        s.append(".");
        s.append(self.id.as_str());
        proof {
            assert(s@ =~= token_string(self.sid@, self.expire_at as nat, self.id@));
        }
        s
    }

    /// Parses a token string; `None` unless it has exactly three
    /// dot-separated fields with a decimal number in the middle.
    pub fn parse(token: &str) -> (r: Option<Token>)
        ensures
            match r {
                Some(t) => token_parse(token@) == Some((t.sid@, t.expire_at as nat, t.id@)),
                None => token_parse(token@) is None,
            },
    {
        let parts = split_str(token, '.');
        if parts.len() != 3 {
            return None;
        }
        proof {
            assert(parts@[1]@ == split_on(token@, '.')[1]);
        }
        match parse_u64_dec(parts[1].as_str()) {
            None => None,
            Some(expire_at) => {
                let sid = parts[0].clone();
                let id = parts[2].clone();
                Some(Token { id, expire_at, sid })
            },
        }
    }

    /// Whether the token parses and has not expired by `now_s`.
    pub fn is_valid(token: &str, now_s: u64) -> (r: bool)
        ensures
            r == match token_parse(token@) {
                Some(t) => now_s as nat <= t.1,
                None => false,
            },
    {
        match Token::parse(token) {
            Some(t) => now_s <= t.expire_at,
            None => false,
        }
    }
}

/// Rendering a token and parsing it back returns its fields, for any
/// session id and user id that are free of the separator.
pub proof fn lemma_token_round_trip(sid: Seq<char>, expire_at: nat, id: Seq<char>)
    requires
        sep_free(sid, '.'),
        sep_free(id, '.'),
        expire_at <= u64::MAX,
    ensures
        token_parse(token_string(sid, expire_at, id)) == Some((sid, expire_at, id)),
{
    lemma_dec_seq_round_trip(expire_at);
    let d = dec_seq(expire_at);
    assert forall|i: int| 0 <= i < d.len() implies d[i] != '.' by {
        assert(is_dec_digit(d[i]));
        assert((d[i] as u32) != ('.' as u32));
    }
    let parts = seq![sid, d, id];
    lemma_split_join(parts, '.');
    assert(join_with(parts, '.') =~= token_string(sid, expire_at, id)) by {
        reveal_with_fuel(join_with, 4);
        assert(parts.drop_last() =~= seq![sid, d]);
        assert(seq![sid, d].drop_last() =~= seq![sid]);
        assert(join_with(seq![sid], '.') == sid);
        assert(join_with(seq![sid, d], '.') == sid + seq!['.'] + d);
    }
}

} // verus!
