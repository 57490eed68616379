//! What becomes of a request once the rate limiter has looked at it.

use vstd::prelude::*;

use crate::auth;
use crate::auth_context::Method;
use crate::maps;
use crate::stats::{mask_client_key, RateLimitStats};
use crate::stats;
use crate::text::decimal_text;
use crate::text;
use crate::time::Timestamp;
use crate::time;

verus! {

/// Whether a request is counted at all: a preflight request is not.
pub fn is_limited(method: &Method) -> (r: bool)
    ensures
        r == (*method != Method::Options),
{
    *method != Method::Options
}

/// What a client is told that has sent too many requests.
#[derive(Debug)]
pub struct RateLimited {
    /// The seconds after which to try again, as a header gives them.
    pub retry_after: String,
    /// The instant at which requests are accepted again.
    pub reset_at: String,
}

/// The seconds after which to try again: those to wait, but at least one.
pub open spec fn retry_seconds(wait_secs: u64) -> u64 {
    if wait_secs > 1 {
        wait_secs
    } else {
        1
    }
}

/// Counts a request of the client `key` that the limiter lets through, or turns
/// away for `wait_secs` seconds, and says what a client is told that is turned
/// away.
pub fn settle(
    stats: &mut RateLimitStats,
    key: &str,
    wait_secs: Option<u64>,
    now: &Timestamp,
) -> (r: Option<RateLimited>)
    requires
        wait_secs matches Some(w) ==> {
            &&& stats::maskable(key@)
            &&& retry_seconds(w) <= time::MAX_DURATION_SECONDS
            &&& time::shifted(now@, retry_seconds(w) as int) is Some
        },
    ensures
        match wait_secs {
            None => {
                &&& r is None
                &&& final(stats).total_allowed == old(stats).total_allowed.wrapping_add(1)
                &&& final(stats).total_rejected == old(stats).total_rejected
                &&& maps::counts_in(final(stats).per_token_rejected) == maps::counts_in(
                    old(stats).per_token_rejected,
                )
            },
            Some(w) => {
                let reset = time::shifted(now@, retry_seconds(w) as int)->0;
                &&& r matches Some(told) && told.retry_after@ == text::decimal(
                    retry_seconds(w) as nat,
                ) && told.reset_at@ == time::rfc3339_name(reset.0, reset.1)
                &&& final(stats).total_allowed == old(stats).total_allowed
                &&& final(stats).total_rejected == old(stats).total_rejected.wrapping_add(1)
                &&& maps::counts_in(final(stats).per_token_rejected) == stats::bumped(
                    maps::counts_in(old(stats).per_token_rejected),
                    stats::masked(key@),
                )
            },
        },
{
    match wait_secs {
        None => {
            stats.record_allowed();
            None
        },
        Some(w) => {
            stats.record_rejected(mask_client_key(key).as_str());
            let retry: u64 = if w > 1 {
                w
            } else {
                1
            };
            match now.plus_seconds(retry as i64) {
                Some(reset) => Some(
                    RateLimited {
                        retry_after: decimal_text(retry),
                        reset_at: reset.to_rfc3339(),
                    },
                ),
                None => None,
            }
        },
    }
}

/// What is trimmed away leaves characters of the text.
proof fn lemma_trimmed_ascii(s: Seq<char>)
    requires
        vstd::utf8::is_ascii_chars(s),
    ensures
        vstd::utf8::is_ascii_chars(text::trimmed(s)),
{
    text::lemma_trim_start_bounds(s);
    let a = text::trim_start(s);
    let k = choose|k: int| 0 <= k <= s.len() && a == s.skip(k);
    assert forall|i: int| 0 <= i < a.len() implies '\0' <= #[trigger] a[i] <= '\u{7f}' by {
        assert(a[i] == s[k + i]);
    }
    text::lemma_trim_end_bounds(a);
    let t = text::trim_end(a);
    let m = choose|m: int| 0 <= m <= a.len() && t == a.take(m);
    assert forall|i: int| 0 <= i < t.len() implies '\0' <= #[trigger] t[i] <= '\u{7f}' by {
        assert(t[i] == a[i]);
    }
}

/// Any key that the headers of a request give can be masked.
pub proof fn lemma_client_keys_maskable(headers: auth::RequestHeaders)
    ensures
        stats::maskable(auth::client_key(auth::credentials_of(headers))),
{
    reveal_strlit("bearer:");
    reveal_strlit("basic:");
    reveal_strlit("anonymous");
    reveal_strlit("Bearer ");
    let c = auth::credentials_of(headers);
    let key = auth::client_key(c);
    match c {
        Some(auth::Credentials::Bearer(token)) => {
            let value = auth::header_value(headers.authorization)->0;
            let bytes = headers.authorization->0@;
            assert forall|i: int| 0 <= i < value.len() implies '\0' <= #[trigger] value[i]
                <= '\u{7f}' by {
                assert(auth::is_header_byte(bytes[i]));
            }
            lemma_trimmed_ascii(value);
            let t = text::trimmed(value);
            match text::after_prefix(t, "Bearer "@) {
                Some(rest) => {
                    assert forall|i: int| 0 <= i < rest.len() implies '\0' <= #[trigger] rest[i]
                        <= '\u{7f}' by {
                        assert(rest[i] == t[7 + i]);
                    }
                    lemma_trimmed_ascii(rest);
                    assert(token == text::trimmed(rest));
                },
                None => {},
            }
            assert(vstd::utf8::is_ascii_chars(token));
            assert(key.take(7) == "bearer:"@);
            assert(key.skip(7) == token);
            vstd::utf8::is_ascii_chars_encode_utf8(token);
            vstd::utf8::encode_utf8_valid_utf8(token);
            let b = vstd::utf8::encode_utf8(token);
            if b.len() > 8 {
                assert(token[8] as u8 == b[8]);
                assert('\0' <= token[8] <= '\u{7f}');
                assert(b[8] < 128);
                vstd::utf8::is_char_boundary_iff_not_is_continuation_byte(b, 8);
            }
        },
        Some(auth::Credentials::Basic(_, _)) => {
            assert(key[1] == 'a');
            if text::begins_with(key, "bearer:"@) {
                assert(key.take(7)[1] == "bearer:"@[1]);
            }
        },
        None => {
            if text::begins_with(key, "bearer:"@) {
                assert(key.take(7)[0] == "bearer:"@[0]);
            }
        },
    }
}

}
