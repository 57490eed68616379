//! Laws of what is counted: shares, the counts of the rate limiter and what is
//! shown of clients.

use vstd::prelude::*;

use crate::maps;
use crate::order;
use crate::order::Ranked;
use crate::rate_limit;
use crate::stats;
use crate::stats::TokenCount;
use crate::text;
use crate::text_laws;

verus! {

/// There is a share unless nothing was counted; it is that part of all that was
/// counted, the part and the rest together.
pub proof fn lemma_shares(part: u64, rest: u64)
    ensures
        stats::share_of(part, rest) is None <==> part == 0 && rest == 0,
        stats::share_of(part, rest) matches Some(s) ==> s.part == part && s.whole as int == part
            + rest,
        stats::share_of(part, rest) matches Some(s) ==> s.part <= s.whole && s.whole > 0,
{
}

/// A client that is turned away has one more counted against it, and no other
/// client has.
pub proof fn lemma_one_more(m: Map<Seq<char>, u64>, key: Seq<char>, other: Seq<char>)
    ensures
        stats::bumped(m, key).contains_key(key),
        !m.contains_key(key) ==> stats::bumped(m, key)[key] == 1,
        m.contains_key(key) && m[key] < u64::MAX ==> stats::bumped(m, key)[key] == m[key] + 1,
        other != key ==> stats::bumped(m, key).contains_key(other) == m.contains_key(other),
        other != key && m.contains_key(other) ==> stats::bumped(m, key)[other] == m[other],
{
}

/// Of the clients that were turned away the 20 with the highest counts are
/// listed, or all where they are fewer, the highest first; each was turned away,
/// and none that is not listed was turned away more often than one that is.
pub proof fn lemma_top_clients(all: Seq<TokenCount>)
    ensures
        all.len() <= 20 ==> stats::top_of(all).len() == all.len(),
        all.len() > 20 ==> stats::top_of(all).len() == 20,
        forall|i: int|
            0 <= i < stats::top_of(all).len() ==> all.contains(#[trigger] stats::top_of(all)[i]),
        forall|i: int, j: int|
            0 <= i < j < stats::top_of(all).len() ==> (#[trigger] stats::top_of(all)[i]).count >= (
            #[trigger] stats::top_of(all)[j]).count,
        forall|i: int, x: TokenCount|
            0 <= i < stats::top_of(all).len() && #[trigger] all.contains(x) && !stats::top_of(
                all,
            ).contains(x) ==> (#[trigger] stats::top_of(all)[i]).count >= x.count,
{
    broadcast use vstd::seq_lib::group_to_multiset_ensures;

    let top = stats::top_of(all);
    let s = order::sorted(all);
    order::lemma_sorted_same_items(all);
    order::lemma_sorted_in_order(all);
    assert forall|x: TokenCount| #[trigger] s.contains(x) == all.contains(x) by {
        assert(s.to_multiset().count(x) == all.to_multiset().count(x));
    }
    assert forall|i: int| 0 <= i < top.len() implies all.contains(#[trigger] top[i]) by {
        assert(top[i] == s[i]);
        assert(s.contains(s[i]));
    }
    assert forall|i: int, j: int| 0 <= i < j < s.len() implies s[i].count >= s[j].count by {
        assert(!s[j].before(&s[i]));
    }
    assert forall|i: int, x: TokenCount|
        0 <= i < top.len() && #[trigger] all.contains(x) && !top.contains(x) implies (
    #[trigger] top[i]).count >= x.count by {
        assert(s.contains(x));
        let j = choose|j: int| 0 <= j < s.len() && s[j] == x;
        if j < top.len() {
            assert(top[j] == x);
        }
        assert(top[i] == s[i]);
    }
}

/// A list of counts names every client that was turned away once, with its count,
/// and no other client.
pub proof fn lemma_counts_listed(s: Seq<TokenCount>, m: Map<Seq<char>, u64>, key: Seq<char>)
    requires
        maps::lists_counts(s, m),
    ensures
        m.contains_key(key) <==> exists|i: int| 0 <= i < s.len() && (#[trigger] s[i]).token@ == key,
        forall|i: int|
            0 <= i < s.len() ==> m.contains_key((#[trigger] s[i]).token@) && m[s[i].token@]
                == s[i].count,
        forall|i: int, j: int|
            0 <= i < j < s.len() ==> (#[trigger] s[i]).token@ != (#[trigger] s[j]).token@,
{
}

/// Of a token in ASCII the first eight characters are shown, or all of them where
/// there are no more, with three stars behind; a client that sent no token is
/// shown as it is.
pub proof fn lemma_what_is_shown(token: Seq<char>, key: Seq<char>)
    requires
        forall|i: int| 0 <= i < token.len() ==> '\0' <= #[trigger] token[i] <= '\u{7f}',
        !"bearer:"@.is_prefix_of(key),
    ensures
        token.len() > 8 ==> stats::masked("bearer:"@ + token) == "bearer:"@ + token.take(8)
            + "***"@,
        token.len() <= 8 ==> stats::masked("bearer:"@ + token) == "bearer:"@ + token + "***"@,
        stats::masked(key) == key,
{
    text_laws::lemma_affixes("bearer:"@ + token, "bearer:"@, token);
    text_laws::lemma_bytes(token);
    if text::begins_with(key, "bearer:"@) {
        assert(key.take("bearer:"@.len() as int) == key.subrange(0, "bearer:"@.len() as int));
    }
    if token.len() > 8 {
        let head = token.take(8);
        assert forall|i: int| 0 <= i < head.len() implies '\0' <= #[trigger] head[i]
            <= '\u{7f}' by {
            assert(head[i] == token[i]);
        }
        vstd::utf8::is_ascii_chars_encode_utf8(token);
        vstd::utf8::is_ascii_chars_encode_utf8(head);
        let whole = vstd::utf8::encode_utf8(token);
        let part = vstd::utf8::encode_utf8(head);
        assert(whole.subrange(0, 8) =~= part);
        vstd::utf8::encode_utf8_decode_utf8(head);
    }
}

/// Whoever is turned away is told to wait at least one second, and as long as
/// there is to wait.
pub proof fn lemma_wait(wait_secs: u64)
    ensures
        rate_limit::retry_seconds(wait_secs) >= 1,
        rate_limit::retry_seconds(wait_secs) >= wait_secs,
        rate_limit::retry_seconds(wait_secs) == 1 || rate_limit::retry_seconds(wait_secs)
            == wait_secs,
{
}

}
