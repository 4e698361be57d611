//! Pagination carriers, the retention window, and the trusted edges for
//! wall-clock time and random identifiers.

use vstd::prelude::*;
use rand::RngExt;

verus! {

/// How a listing request asks for its page: an optional cursor to resume
/// from, a row limit, and the direction.
pub struct PageOption<T> {
    pub offset: Option<T>,
    pub limit: usize,
    pub desc: bool,
}

impl<T> PageOption<T> {
    /// A first-page request: no cursor.
    pub fn new(limit: usize, desc: bool) -> (r: Self)
        ensures
            r.offset is None,
            r.limit == limit,
            r.desc == desc,
    {
        Self { offset: None, limit, desc }
    }
}

/// One page of results plus the cursor of the next page, if there is one.
pub struct Page<T, OT> {
    pub items: Vec<T>,
    pub next_page_offset: Option<OT>,
}

impl<T, OT> Page<T, OT> {
    /// A page with nothing on it.
    pub fn empty() -> (r: Self)
        ensures
            r.items@.len() == 0,
            r.next_page_offset is None,
    {
        Self { items: Vec::new(), next_page_offset: None }
    }

    /// Maps every row of the page, keeping the cursor.
    pub fn convert<R, F: Fn(T) -> R>(self, f: F) -> (r: Page<R, OT>)
        requires
            forall|i: int| 0 <= i < self.items@.len() ==> call_requires(f, (self.items@[i],)),
        ensures
            r.items@.len() == self.items@.len(),
            forall|i: int|
                0 <= i < r.items@.len() ==> call_ensures(f, (self.items@[i],), #[trigger] r.items@[i]),
            r.next_page_offset == self.next_page_offset,
    {
        let ghost orig = self.items@;
        let mut rest = self.items;
        let mut out: Vec<R> = Vec::new();
        while rest.len() > 0
            invariant
                out@.len() + rest@.len() == orig.len(),
                rest@ == orig.subrange(out@.len() as int, orig.len() as int),
                forall|i: int| 0 <= i < orig.len() ==> call_requires(f, (orig[i],)),
                forall|i: int|
                    0 <= i < out@.len() ==> call_ensures(f, (orig[i],), #[trigger] out@[i]),
            decreases rest@.len(),
        {
            let t = rest.remove(0);
            out.push(f(t));
            proof {
                assert(rest@ =~= orig.subrange(out@.len() as int, orig.len() as int));
            }
        }
        Page::<R, OT> { items: out, next_page_offset: self.next_page_offset }
    }
}

/// Items older than this window are pruned and not ingested.
pub const RETENTION_WINDOW_MS: i64 = 14 * 24 * 60 * 60 * 1000;

/// Whether a character is an ASCII letter or digit.
pub open spec fn is_alnum_char(c: char) -> bool {
    48 <= (c as u32) <= 57 || 65 <= (c as u32) <= 90 || 97 <= (c as u32) <= 122
}

/// A fresh random identifier of the given length.
///
/// Relies on rand's `Alphanumeric` distribution: every sampled byte is an
/// ASCII letter or digit.
#[verifier::external_body]
pub fn new_id(length: usize) -> (r: String)
    ensures
        r@.len() == length,
        forall|i: int| 0 <= i < r@.len() ==> is_alnum_char(#[trigger] r@[i]),
{
    let mut rng = rand::rng();
    (0..length)
        .map(|_| {
            let b: u8 = rng.sample(rand::distr::Alphanumeric);
            char::from(b)
        })
        .collect()
}

/// Milliseconds since the Unix epoch, saturating at both ends: a clock
/// before the epoch reads as zero.
///
/// Relies on `std::time::SystemTime::now`; nothing can be promised of the
/// clock beyond the result being non-negative.
#[verifier::external_body]
pub fn current_time_ms() -> (r: i64)
    ensures
        0 <= r,
{
    let ms = match std::time::SystemTime::now().duration_since(std::time::UNIX_EPOCH) {
        Ok(since) => since.as_millis(),
        Err(_) => 0,
    };
    i64::try_from(ms).unwrap_or(i64::MAX)
}

/// Seconds since the Unix epoch, saturating at both ends: a clock before
/// the epoch reads as zero.
///
/// Relies on `std::time::SystemTime::now`; nothing can be promised of the
/// clock beyond the result being non-negative.
#[verifier::external_body]
pub fn current_time_s() -> (r: i64)
    ensures
        0 <= r,
{
    let s = match std::time::SystemTime::now().duration_since(std::time::UNIX_EPOCH) {
        Ok(since) => since.as_secs(),
        Err(_) => 0,
    };
    i64::try_from(s).unwrap_or(i64::MAX)
}

/// The retention cutoff for a given reading of the clock.
pub fn oldest_allowed_from(now_ms: i64) -> (r: i64)
    requires
        now_ms >= 0,
    ensures
        r == now_ms - RETENTION_WINDOW_MS,
{
    now_ms - RETENTION_WINDOW_MS
}

/// The retention cutoff as of now: items at or below it are stale.
pub fn oldest_allowed_time_ms() -> (r: i64)
    ensures
        r >= -RETENTION_WINDOW_MS,
{
    oldest_allowed_from(current_time_ms())
}

} // verus!
