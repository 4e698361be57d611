//! Number renderings, wire ids, cursors and tokens.

use near_rss::database::items::Item;
use near_rss::greader::{convert_to_long_form_ids, long_item_id, INVALID_ID};
use near_rss::num::{i64_to_dec, parse_i64_dec, parse_u64_dec, parse_u64_hex, u64_to_dec,
    u64_to_hex_pad};
use near_rss::token::Token;

#[test]
fn decimal_renders_and_parses() {
    assert_eq!(u64_to_dec(0), "0");
    assert_eq!(u64_to_dec(90210), "90210");
    assert_eq!(u64_to_dec(u64::MAX), "18446744073709551615");
    assert_eq!(i64_to_dec(-42), "-42");
    assert_eq!(i64_to_dec(i64::MIN), "-9223372036854775808");
    assert_eq!(parse_u64_dec("90210"), Some(90210));
    assert_eq!(parse_u64_dec(""), None);
    assert_eq!(parse_u64_dec("12x"), None);
    assert_eq!(parse_u64_dec("18446744073709551615"), Some(u64::MAX));
    assert_eq!(parse_u64_dec("18446744073709551616"), None);
    assert_eq!(parse_i64_dec("-42"), Some(-42));
    assert_eq!(parse_i64_dec("-9223372036854775808"), Some(i64::MIN));
    assert_eq!(parse_i64_dec("9223372036854775808"), None);
}

#[test]
fn hex_renders_and_parses() {
    assert_eq!(u64_to_hex_pad(0xdeadbeef, 16), "00000000deadbeef");
    assert_eq!(u64_to_hex_pad(15, 2), "0f");
    assert_eq!(parse_u64_hex("00000000deadbeef"), Some(0xdeadbeef));
    assert_eq!(parse_u64_hex("DEADBEEF"), Some(0xdeadbeef));
    assert_eq!(parse_u64_hex(""), None);
    assert_eq!(parse_u64_hex("xyz"), None);
}

#[test]
fn wire_ids_round_trip() {
    let encoded = long_item_id(355);
    assert_eq!(encoded, "tag:google.com,2005:reader/item/0000000000000163");
    assert_eq!(Item::id_str_to_i64(&encoded), 355);
    // plain decimal is accepted without the prefix
    assert_eq!(Item::id_str_to_i64("355"), 355);
    // unreadable ids map to the sentinel instead of failing the batch
    assert_eq!(Item::id_str_to_i64("tag:google.com,2005:reader/item/zzz"), INVALID_ID);
    assert_eq!(Item::id_str_to_i64("not a number"), INVALID_ID);
}

#[test]
fn long_form_ids_get_the_prefix() {
    let ids = vec!["355".to_owned(), "abc".to_owned()];
    let long = convert_to_long_form_ids(&ids);
    assert_eq!(long[0], "tag:google.com,2005:reader/item/355");
    assert_eq!(long[1], "tag:google.com,2005:reader/item/abc");
}

#[test]
fn token_round_trips() {
    let token = Token::new("user-7");
    let rendered = token.to_string();
    let parsed = Token::parse(&rendered).expect("a fresh token parses");
    assert_eq!(parsed.sid, token.sid);
    assert_eq!(parsed.expire_at, token.expire_at);
    assert_eq!(parsed.id, "user-7");
    assert_eq!(token.sid.len(), 20);
    assert!(token.sid.chars().all(|c| c.is_ascii_alphanumeric()));
}

#[test]
fn token_parsing_is_strict_about_shape() {
    assert!(Token::parse("no dots here").is_none());
    assert!(Token::parse("sid.123").is_none());
    assert!(Token::parse("sid.notanumber.id").is_none());
    assert!(Token::parse("sid.99.id.extra").is_none());
    let t = Token::parse("sid.99.id").unwrap();
    assert_eq!((t.sid.as_str(), t.expire_at, t.id.as_str()), ("sid", 99, "id"));
    assert!(Token::is_valid("sid.99.id", 99));
    assert!(!Token::is_valid("sid.99.id", 100));
}

#[test]
fn offsets_reject_what_the_store_never_wrote() {
    assert!(Item::parse_offset("123-").is_none());
    assert!(Item::parse_offset("-5-3").is_none());
    assert!(Item::parse_offset("12").is_none());
    assert!(Item::parse_offset("1-2-3").is_none());
    assert_eq!(Item::parse_offset("12-34"), Some((12, 34)));
}
