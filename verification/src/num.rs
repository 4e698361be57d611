//! Decimal and hexadecimal codecs for the integers that appear in wire
//! strings: pagination cursors, item ids and token expiry times.

use vstd::prelude::*;

verus! {

// ---------------------------------------------------------------------------
// Decimal digits
// ---------------------------------------------------------------------------
pub open spec fn is_dec_digit(c: char) -> bool {
    48 <= (c as u32) <= 57
}

pub open spec fn dec_digit_val(c: char) -> int {
    (c as u32) - 48
}

pub open spec fn dec_digit(d: int) -> char {
    if d == 0 {
        '0'
    } else if d == 1 {
        '1'
    } else if d == 2 {
        '2'
    } else if d == 3 {
        '3'
    } else if d == 4 {
        '4'
    } else if d == 5 {
        '5'
    } else if d == 6 {
        '6'
    } else if d == 7 {
        '7'
    } else if d == 8 {
        '8'
    } else {
        '9'
    }
}

/// The decimal rendering of a natural number, most significant digit first.
pub open spec fn dec_seq(n: nat) -> Seq<char>
    decreases n,
{
    if n < 10 {
        seq![dec_digit(n as int)]
    } else {
        dec_seq(n / 10).push(dec_digit((n % 10) as int))
    }
}

/// The decimal rendering of a signed number: a leading '-' for negatives.
pub open spec fn i64_dec_seq(n: int) -> Seq<char> {
    if n < 0 {
        seq!['-'] + dec_seq((-n) as nat)
    } else {
        dec_seq(n as nat)
    }
}

pub open spec fn all_dec_digits(s: Seq<char>) -> bool {
    forall|i: int| 0 <= i < s.len() ==> is_dec_digit(#[trigger] s[i])
}

/// The value of a digit string, read most significant digit first.
/// Meaningful only when `all_dec_digits` holds.
pub open spec fn dec_val(s: Seq<char>) -> nat
    decreases s.len(),
{
    if s.len() == 0 {
        0
    } else {
        dec_val(s.drop_last()) * 10 + (if is_dec_digit(s.last()) {
            dec_digit_val(s.last()) as nat
        } else {
            0
        })
    }
}

/// What parsing an optionally-'-'-signed decimal string as an `i64` yields.
pub open spec fn dec_i64_of(s: Seq<char>) -> Option<int> {
    if s.len() > 0 && s[0] == '-' {
        let t = s.subrange(1, s.len() as int);
        if t.len() > 0 && all_dec_digits(t) && dec_val(t) <= 0x8000000000000000 {
            Some(-(dec_val(t) as int))
        } else {
            None
        }
    } else {
        if s.len() > 0 && all_dec_digits(s) && dec_val(s) <= i64::MAX {
            Some(dec_val(s) as int)
        } else {
            None
        }
    }
}

fn dec_digit_str(d: u64) -> (r: &'static str)
    requires
        d < 10,
    ensures
        r@ =~= seq![dec_digit(d as int)],
{
    proof {
        reveal_strlit("0");
        reveal_strlit("1");
        reveal_strlit("2");
        reveal_strlit("3");
        reveal_strlit("4");
        reveal_strlit("5");
        reveal_strlit("6");
        reveal_strlit("7");
        reveal_strlit("8");
        reveal_strlit("9");
    }
    if d == 0 {
        "0"
    } else if d == 1 {
        "1"
    } else if d == 2 {
        "2"
    } else if d == 3 {
        "3"
    } else if d == 4 {
        "4"
    } else if d == 5 {
        "5"
    } else if d == 6 {
        "6"
    } else if d == 7 {
        "7"
    } else if d == 8 {
        "8"
    } else {
        "9"
    }
}

/// Renders `n` in decimal.
pub fn u64_to_dec(n: u64) -> (r: String)
    ensures
        r@ == dec_seq(n as nat),
    decreases n,
{
    if n < 10 {
        let r = dec_digit_str(n).to_owned();
        proof {
            assert(r@ =~= dec_seq(n as nat));
        }
        r
    } else {
        let mut s = u64_to_dec(n / 10);
        s.append(dec_digit_str(n % 10));
        proof {
            assert(s@ =~= dec_seq(n as nat));
        }
        s
    }
}

/// Renders `n` in decimal with a '-' sign for negatives.
pub fn i64_to_dec(n: i64) -> (r: String)
    ensures
        r@ == i64_dec_seq(n as int),
{
    if n >= 0 {
        u64_to_dec(n as u64)
    } else {
        let m: u64 = if n == i64::MIN {
            9223372036854775808u64
        } else {
            (-n) as u64
        };
        let mut s = "-".to_owned();
        proof {
            reveal_strlit("-");
        }
        s.append(u64_to_dec(m).as_str());
        proof {
            assert(s@ =~= i64_dec_seq(n as int));
        }
        s
    }
}

/// Every decimal rendering consists of digits and reads back to its value.
pub proof fn lemma_dec_seq_round_trip(n: nat)
    ensures
        dec_seq(n).len() >= 1,
        all_dec_digits(dec_seq(n)),
        dec_val(dec_seq(n)) == n,
    decreases n,
{
    if n < 10 {
        assert(dec_seq(n) =~= seq![dec_digit(n as int)]);
        assert(dec_seq(n).drop_last() =~= Seq::<char>::empty());
        lemma_dec_digit_value(n as int);
        assert(dec_val(dec_seq(n)) == n) by {
            reveal_with_fuel(dec_val, 2);
        }
    } else {
        lemma_dec_seq_round_trip(n / 10);
        lemma_dec_digit_value((n % 10) as int);
        let s = dec_seq(n);
        assert(s =~= dec_seq(n / 10).push(dec_digit((n % 10) as int)));
        assert(s.drop_last() =~= dec_seq(n / 10));
        assert(dec_val(s) == (n / 10) * 10 + n % 10);
        assert(all_dec_digits(s)) by {
            assert(forall|i: int|
                0 <= i < s.len() - 1 ==> s[i] == #[trigger] dec_seq(n / 10)[i]);
        }
    }
}

/// Each decimal digit character carries its own value.
pub proof fn lemma_dec_digit_value(d: int)
    requires
        0 <= d < 10,
    ensures
        is_dec_digit(dec_digit(d)),
        dec_digit_val(dec_digit(d)) == d,
{
    assert('0' as u32 == 48);
    assert('1' as u32 == 49);
    assert('2' as u32 == 50);
    assert('3' as u32 == 51);
    assert('4' as u32 == 52);
    assert('5' as u32 == 53);
    assert('6' as u32 == 54);
    assert('7' as u32 == 55);
    assert('8' as u32 == 56);
    assert('9' as u32 == 57);
}

/// `dec_val` only grows as an all-digit string is extended.
pub proof fn lemma_dec_val_extend(s: Seq<char>, i: int, j: int)
    requires
        0 <= i <= j <= s.len(),
    ensures
        dec_val(s.subrange(0, i)) <= dec_val(s.subrange(0, j)),
    decreases j - i,
{
    if i < j {
        lemma_dec_val_extend(s, i, j - 1);
        let a = s.subrange(0, j - 1);
        let b = s.subrange(0, j);
        assert(b.drop_last() =~= a);
        assert(dec_val(b) >= dec_val(a) * 10);
    }
}

/// Parses an unsigned decimal string; `None` on empty input, a non-digit,
/// or a value that does not fit in a `u64`.
pub fn parse_u64_dec(s: &str) -> (r: Option<u64>)
    ensures
        match r {
            Some(n) => s@.len() > 0 && all_dec_digits(s@) && n as nat == dec_val(s@),
            None => s@.len() == 0 || !all_dec_digits(s@) || dec_val(s@) > u64::MAX,
        },
{
    let len = s.unicode_len();
    if len == 0 {
        return None;
    }
    let mut acc: u64 = 0;
    let mut i: usize = 0;
    while i < len
        invariant
            0 <= i <= len,
            len == s@.len(),
            all_dec_digits(s@.subrange(0, i as int)),
            acc as nat == dec_val(s@.subrange(0, i as int)),
        decreases len - i,
    {
        let c = s.get_char(i);
        let u = c as u32;
        if u < 48 || u > 57 {
            return None;
        }
        let d = (u - 48) as u64;
        if acc > (u64::MAX - d) / 10 {
            // the value no longer fits; it only grows from here
            proof {
                let t = s@.subrange(0, i + 1);
                assert(t.drop_last() =~= s@.subrange(0, i as int));
                assert(dec_val(t) == acc as nat * 10 + d as nat);
                assert(acc as nat * 10 + d as nat > u64::MAX) by {
                    assert(acc >= (u64::MAX - d) / 10 + 1);
                    assert(((u64::MAX - d) / 10 + 1) as nat * 10 + d as nat > u64::MAX) by (nonlinear_arith);
                    assert(acc as nat * 10 >= ((u64::MAX - d) / 10 + 1) as nat * 10) by (nonlinear_arith)
                        requires acc as nat >= ((u64::MAX - d) / 10 + 1) as nat;
                };
                lemma_dec_val_extend(s@, i + 1, s@.len() as int);
                assert(s@.subrange(0, s@.len() as int) =~= s@);
            }
            return None;
        }
        proof {
            let t = s@.subrange(0, i + 1);
            assert(t.drop_last() =~= s@.subrange(0, i as int));
            assert(acc as nat * 10 + d as nat <= u64::MAX) by {
                assert(acc <= (u64::MAX - d) / 10);
                assert(acc as nat * 10 <= ((u64::MAX - d) / 10) as nat * 10) by (nonlinear_arith)
                    requires acc as nat <= ((u64::MAX - d) / 10) as nat;
            };
        }
        acc = acc * 10 + d;
        i = i + 1;
    }
    proof {
        assert(s@.subrange(0, len as int) =~= s@);
    }
    Some(acc)
}

/// Parses an optionally-'-'-signed decimal string as an `i64`.
pub fn parse_i64_dec(s: &str) -> (r: Option<i64>)
    ensures
        match r {
            Some(n) => dec_i64_of(s@) == Some(n as int),
            None => dec_i64_of(s@) is None,
        },
{
    let len = s.unicode_len();
    if len == 0 {
        return None;
    }
    if s.get_char(0) == '-' {
        let rest = s.substring_char(1, len);
        match parse_u64_dec(rest) {
            None => None,
            Some(m) => {
                if m <= 9223372036854775808u64 {
                    let v: i64 = if m == 9223372036854775808u64 {
                        i64::MIN
                    } else {
                        -(m as i64)
                    };
                    Some(v)
                } else {
                    None
                }
            },
        }
    } else {
        match parse_u64_dec(s) {
            None => None,
            Some(m) => {
                if m <= i64::MAX as u64 {
                    proof {
                        assert(s@.len() > 0 && s@[0] != '-');
                    }
                    Some(m as i64)
                } else {
                    None
                }
            },
        }
    }
}

// ---------------------------------------------------------------------------
// Hexadecimal
// ---------------------------------------------------------------------------
pub open spec fn is_hex_digit(c: char) -> bool {
    48 <= (c as u32) <= 57 || 97 <= (c as u32) <= 102 || 65 <= (c as u32) <= 70
}

pub open spec fn hex_digit_val(c: char) -> int {
    if 48 <= (c as u32) <= 57 {
        (c as u32) - 48
    } else if 97 <= (c as u32) <= 102 {
        (c as u32) - 87
    } else {
        (c as u32) - 55
    }
}

pub open spec fn hex_digit(d: int) -> char {
    if d < 10 {
        dec_digit(d)
    } else if d == 10 {
        'a'
    } else if d == 11 {
        'b'
    } else if d == 12 {
        'c'
    } else if d == 13 {
        'd'
    } else if d == 14 {
        'e'
    } else {
        'f'
    }
}

/// The zero-padded lowercase hex rendering of `n` in exactly `width` digits.
pub open spec fn hex_seq_pad(n: nat, width: nat) -> Seq<char>
    decreases width,
{
    if width == 0 {
        Seq::empty()
    } else {
        hex_seq_pad(n / 16, (width - 1) as nat).push(hex_digit((n % 16) as int))
    }
}

pub open spec fn all_hex_digits(s: Seq<char>) -> bool {
    forall|i: int| 0 <= i < s.len() ==> is_hex_digit(#[trigger] s[i])
}

/// The value of a hex digit string, most significant digit first.
pub open spec fn hex_val(s: Seq<char>) -> nat
    decreases s.len(),
{
    if s.len() == 0 {
        0
    } else {
        hex_val(s.drop_last()) * 16 + (if is_hex_digit(s.last()) {
            hex_digit_val(s.last()) as nat
        } else {
            0
        })
    }
}

fn hex_digit_str(d: u64) -> (r: &'static str)
    requires
        d < 16,
    ensures
        r@ =~= seq![hex_digit(d as int)],
{
    if d < 10 {
        dec_digit_str(d)
    } else {
        proof {
            reveal_strlit("a");
            reveal_strlit("b");
            reveal_strlit("c");
            reveal_strlit("d");
            reveal_strlit("e");
            reveal_strlit("f");
        }
        if d == 10 {
            "a"
        } else if d == 11 {
            "b"
        } else if d == 12 {
            "c"
        } else if d == 13 {
            "d"
        } else if d == 14 {
            "e"
        } else {
            "f"
        }
    }
}

/// Renders `n` as exactly `width` lowercase hex digits (the low bits if
/// `n` needs more).
pub fn u64_to_hex_pad(n: u64, width: usize) -> (r: String)
    ensures
        r@ == hex_seq_pad(n as nat, width as nat),
    decreases width,
{
    if width == 0 {
        let r = String::new();
        proof {
            assert(r@ =~= hex_seq_pad(n as nat, 0));
        }
        r
    } else {
        let mut s = u64_to_hex_pad(n / 16, width - 1);
        s.append(hex_digit_str(n % 16));
        proof {
            assert(s@ =~= hex_seq_pad(n as nat, width as nat));
        }
        s
    }
}

/// A padded hex rendering consists of hex digits and reads back to its
/// value whenever the value fits in the width.
pub proof fn lemma_hex_pad_round_trip(n: nat, width: nat)
    requires
        n < pow16(width),
    ensures
        hex_seq_pad(n, width).len() == width,
        all_hex_digits(hex_seq_pad(n, width)),
        hex_val(hex_seq_pad(n, width)) == n,
    decreases width,
{
    if width == 0 {
    } else {
        assert(n / 16 < pow16((width - 1) as nat)) by {
            assert(pow16(width) == 16 * pow16((width - 1) as nat));
            assert(n / 16 < pow16((width - 1) as nat)) by (nonlinear_arith)
                requires n < 16 * pow16((width - 1) as nat);
        };
        lemma_hex_pad_round_trip(n / 16, (width - 1) as nat);
        let s = hex_seq_pad(n, width);
        let p = hex_seq_pad(n / 16, (width - 1) as nat);
        assert(s =~= p.push(hex_digit((n % 16) as int)));
        assert(s.drop_last() =~= p);
        assert(all_hex_digits(s)) by {
            assert(forall|i: int| 0 <= i < s.len() - 1 ==> s[i] == #[trigger] p[i]);
        }
    }
}

pub open spec fn pow16(w: nat) -> nat
    decreases w,
{
    if w == 0 {
        1
    } else {
        16 * pow16((w - 1) as nat)
    }
}

/// `hex_val` only grows as an all-hex-digit string is extended.
pub proof fn lemma_hex_val_extend(s: Seq<char>, i: int, j: int)
    requires
        0 <= i <= j <= s.len(),
    ensures
        hex_val(s.subrange(0, i)) <= hex_val(s.subrange(0, j)),
    decreases j - i,
{
    if i < j {
        lemma_hex_val_extend(s, i, j - 1);
        let a = s.subrange(0, j - 1);
        let b = s.subrange(0, j);
        assert(b.drop_last() =~= a);
        assert(hex_val(b) >= hex_val(a) * 16);
    }
}

/// Parses an unsigned hex string; `None` on empty input, a non-hex-digit,
/// or a value that does not fit in a `u64`.
pub fn parse_u64_hex(s: &str) -> (r: Option<u64>)
    ensures
        match r {
            Some(n) => s@.len() > 0 && all_hex_digits(s@) && n as nat == hex_val(s@),
            None => s@.len() == 0 || !all_hex_digits(s@) || hex_val(s@) > u64::MAX,
        },
{
    let len = s.unicode_len();
    if len == 0 {
        return None;
    }
    let mut acc: u64 = 0;
    let mut i: usize = 0;
    while i < len
        invariant
            0 <= i <= len,
            len == s@.len(),
            all_hex_digits(s@.subrange(0, i as int)),
            acc as nat == hex_val(s@.subrange(0, i as int)),
        decreases len - i,
    {
        let c = s.get_char(i);
        let u = c as u32;
        let d: u64 = if u >= 48 && u <= 57 {
            (u - 48) as u64
        } else if u >= 97 && u <= 102 {
            (u - 87) as u64
        } else if u >= 65 && u <= 70 {
            (u - 55) as u64
        } else {
            proof {
                assert(!is_hex_digit(s@[i as int]));
            }
            return None;
        };
        if acc > (u64::MAX - d) / 16 {
            proof {
                let t = s@.subrange(0, i + 1);
                assert(t.drop_last() =~= s@.subrange(0, i as int));
                assert(hex_val(t) == acc as nat * 16 + d as nat);
                assert(acc as nat * 16 + d as nat > u64::MAX) by {
                    assert(acc >= (u64::MAX - d) / 16 + 1);
                    assert(((u64::MAX - d) / 16 + 1) as nat * 16 + d as nat > u64::MAX) by (nonlinear_arith);
                    assert(acc as nat * 16 >= ((u64::MAX - d) / 16 + 1) as nat * 16) by (nonlinear_arith)
                        requires acc as nat >= ((u64::MAX - d) / 16 + 1) as nat;
                };
                lemma_hex_val_extend(s@, i + 1, s@.len() as int);
                assert(s@.subrange(0, s@.len() as int) =~= s@);
            }
            return None;
        }
        proof {
            let t = s@.subrange(0, i + 1);
            assert(t.drop_last() =~= s@.subrange(0, i as int));
            assert(acc as nat * 16 + d as nat <= u64::MAX) by {
                assert(acc <= (u64::MAX - d) / 16);
                assert(acc as nat * 16 <= ((u64::MAX - d) / 16) as nat * 16) by (nonlinear_arith)
                    requires acc as nat <= ((u64::MAX - d) / 16) as nat;
            };
        }
        acc = acc * 16 + d;
        i = i + 1;
    }
    proof {
        assert(s@.subrange(0, len as int) =~= s@);
    }
    Some(acc)
}

} // verus!
