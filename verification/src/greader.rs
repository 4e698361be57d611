//! The Google-Reader wire encoding of item ids and categories: long-form
//! ids carry a fixed prefix and sixteen hex digits, and decoding is
//! lenient, mapping anything unreadable to a sentinel.

use vstd::prelude::*;
use crate::database::items::Item;
use crate::num::{all_hex_digits, dec_i64_of, hex_seq_pad, hex_val, lemma_hex_pad_round_trip,
    parse_i64_dec, parse_u64_hex, pow16, u64_to_hex_pad};
use crate::text::{str_starts_with, views_of};

verus! {

/// The prefix of a long-form wire id.
pub open spec fn wire_prefix() -> Seq<char> {
    "tag:google.com,2005:reader/item/"@
}

/// The long-form wire id of a surrogate id.
pub open spec fn long_id_seq(id: int) -> Seq<char> {
    wire_prefix() + hex_seq_pad(id as nat, 16)
}

/// The sentinel an unreadable wire id decodes to.
pub const INVALID_ID: i64 = -1;

/// What decoding a wire id yields: the hex digits after the prefix, or
/// plain decimal without it; the sentinel when neither reads.
pub open spec fn wire_id_decode(s: Seq<char>) -> int {
    if s.len() >= wire_prefix().len() && s.subrange(0, wire_prefix().len() as int)
        == wire_prefix() {
        let hex = s.subrange(wire_prefix().len() as int, s.len() as int);
        if hex.len() > 0 && all_hex_digits(hex) && hex_val(hex) <= i64::MAX {
            hex_val(hex) as int
        } else {
            INVALID_ID as int
        }
    } else {
        match dec_i64_of(s) {
            Some(v) => v,
            None => INVALID_ID as int,
        }
    }
}

impl Item {
    /// The fixed reader categories of this item: the reading list, then
    /// `read` or `fresh` by the read flag, then `starred` if starred.
    pub fn categories(&self) -> (r: Vec<String>)
        ensures
            views_of(r@) == item_categories(self@.read, self@.starred),
    {
        let mut ret: Vec<String> = Vec::new();
        ret.push("user/-/state/com.google/reading-list".to_owned());
        if self.read {
            ret.push("user/-/state/com.google/read".to_owned());
        } else {
            ret.push("user/-/state/com.google/fresh".to_owned());
        }
        if self.starred {
            ret.push("user/-/state/com.google/starred".to_owned());
        }
        proof {
            assert(views_of(ret@) =~= item_categories(self@.read, self@.starred));
        }
        ret
    }

    /// Decodes a wire id leniently; a single malformed id in a batch must
    /// not fail the batch, so unreadable ids map to the sentinel.
    pub fn id_str_to_i64(id: &str) -> (r: i64)
        ensures
            r as int == wire_id_decode(id@),
    {
        let prefix = "tag:google.com,2005:reader/item/";
        proof {
            reveal_strlit("tag:google.com,2005:reader/item/");
        }
        if str_starts_with(id, prefix) {
            let hex = id.substring_char(32, id.unicode_len());
            match parse_u64_hex(hex) {
                Some(v) => if v <= i64::MAX as u64 {
                    v as i64
                } else {
                    INVALID_ID
                },
                None => INVALID_ID,
            }
        } else {
            match parse_i64_dec(id) {
                Some(v) => v,
                None => INVALID_ID,
            }
        }
    }
}

/// The fixed reader categories for the two state flags.
pub open spec fn item_categories(read: bool, starred: bool) -> Seq<Seq<char>> {
    let base = seq![
        "user/-/state/com.google/reading-list"@,
        if read {
            "user/-/state/com.google/read"@
        } else {
            "user/-/state/com.google/fresh"@
        },
    ];
    if starred {
        base.push("user/-/state/com.google/starred"@)
    } else {
        base
    }
}

/// Encodes a surrogate id as a long-form wire id.
pub fn long_item_id(id: i64) -> (r: String)
    requires
        0 <= id,
    ensures
        r@ == long_id_seq(id as int),
{
    let mut s = "tag:google.com,2005:reader/item/".to_owned();
    s.append(u64_to_hex_pad(id as u64, 16).as_str());
    proof {
        assert(s@ =~= long_id_seq(id as int));
    }
    s
}

/// Prefixes each short-form id, as the protocol's batch endpoints take.
pub fn convert_to_long_form_ids(ids: &Vec<String>) -> (r: Vec<String>)
    ensures
        r@.len() == ids@.len(),
        forall|i: int|
            0 <= i < r@.len() ==> (#[trigger] r@[i])@ == wire_prefix() + ids@[i]@,
{
    let n = ids.len();
    let mut out: Vec<String> = Vec::new();
    let mut i: usize = 0;
    while i < n
        invariant
            0 <= i <= n,
            n == ids@.len(),
            out@.len() == i as int,
            forall|j: int|
                0 <= j < i ==> (#[trigger] out@[j])@ == wire_prefix() + ids@[j]@,
        decreases n - i,
    {
        let mut s = "tag:google.com,2005:reader/item/".to_owned();
        s.append(ids[i].as_str());
        out.push(s);
        i = i + 1;
    }
    out
}

/// Encoding a surrogate id and decoding it back returns the id: wire ids
/// round-trip through the adapter.
pub proof fn lemma_wire_id_round_trip(id: int)
    requires
        0 <= id <= i64::MAX,
    ensures
        wire_id_decode(long_id_seq(id)) == id,
{
    assert(id < pow16(16)) by {
        reveal_with_fuel(pow16, 17);
        assert(pow16(16) == 0x10000000000000000);
    }
    lemma_hex_pad_round_trip(id as nat, 16);
    let s = long_id_seq(id);
    assert(s.subrange(0, wire_prefix().len() as int) =~= wire_prefix());
    assert(s.subrange(wire_prefix().len() as int, s.len() as int) =~= hex_seq_pad(id as nat, 16));
}

} // verus!
