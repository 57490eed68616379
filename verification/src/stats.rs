//! Counts of what the server has taken in and turned away.

use dashmap::DashMap;
use std::collections::hash_map::RandomState;
use vstd::prelude::*;

use crate::maps::{counts_bump, counts_list, counts_new};
use crate::maps;
use crate::order::{sort, Ranked};
use crate::order;
use crate::text::{byte_length, join3, strip_prefix};
use crate::text;

verus! {

/// Counts of the ingest queue. They wrap around.
#[derive(Debug, Clone, Copy, PartialEq, Eq, Structural)]
pub struct IngestStats {
    pub enqueued: u64,
    pub queue_rejected: u64,
    pub batches_written: u64,
    pub batches_failed: u64,
    pub items_written: u64,
}

impl Default for IngestStats {
    fn default() -> (r: IngestStats)
        ensures
            r == (IngestStats {
                enqueued: 0,
                queue_rejected: 0,
                batches_written: 0,
                batches_failed: 0,
                items_written: 0,
            }),
    {
        IngestStats::new()
    }
}

impl IngestStats {
    /// All counts at zero.
    pub fn new() -> (r: IngestStats)
        ensures
            r == (IngestStats {
                enqueued: 0,
                queue_rejected: 0,
                batches_written: 0,
                batches_failed: 0,
                items_written: 0,
            }),
    {
        IngestStats {
            enqueued: 0,
            queue_rejected: 0,
            batches_written: 0,
            batches_failed: 0,
            items_written: 0,
        }
    }

    /// Counts requests that were put in the queue.
    pub fn record_enqueued(&mut self, count: u64)
        ensures
            *final(self) == (IngestStats {
                enqueued: old(self).enqueued.wrapping_add(count),
                ..*old(self)
            }),
    {
        self.enqueued = self.enqueued.wrapping_add(count);
    }

    /// Counts requests for which the queue had no room.
    pub fn record_queue_rejected(&mut self, count: u64)
        ensures
            *final(self) == (IngestStats {
                queue_rejected: old(self).queue_rejected.wrapping_add(count),
                ..*old(self)
            }),
    {
        self.queue_rejected = self.queue_rejected.wrapping_add(count);
    }

    /// Counts writes that succeeded.
    pub fn record_batches_written(&mut self, count: u64)
        ensures
            *final(self) == (IngestStats {
                batches_written: old(self).batches_written.wrapping_add(count),
                ..*old(self)
            }),
    {
        self.batches_written = self.batches_written.wrapping_add(count);
    }

    /// Counts writes that failed.
    pub fn record_batches_failed(&mut self, count: u64)
        ensures
            *final(self) == (IngestStats {
                batches_failed: old(self).batches_failed.wrapping_add(count),
                ..*old(self)
            }),
    {
        self.batches_failed = self.batches_failed.wrapping_add(count);
    }

    /// Counts traces and observations that were written.
    pub fn record_items_written(&mut self, count: u64)
        ensures
            *final(self) == (IngestStats {
                items_written: old(self).items_written.wrapping_add(count),
                ..*old(self)
            }),
    {
        self.items_written = self.items_written.wrapping_add(count);
    }

    /// Counts a write of `items` traces and observations, by how it went.
    pub fn record_write(&mut self, succeeded: bool, items: u64)
        ensures
            *final(self) == if succeeded {
                IngestStats {
                    batches_written: old(self).batches_written.wrapping_add(1),
                    items_written: old(self).items_written.wrapping_add(items),
                    ..*old(self)
                }
            } else {
                IngestStats {
                    batches_failed: old(self).batches_failed.wrapping_add(1),
                    ..*old(self)
                }
            },
    {
        if succeeded {
            self.record_batches_written(1);
            self.record_items_written(items);
        } else {
            self.record_batches_failed(1);
        }
    }

    /// The share of writes that failed, if there were any writes.
    pub fn failure_share(&self) -> (r: Option<Share>)
        ensures
            r == share_of(self.batches_failed, self.batches_written),
    {
        share(self.batches_failed, self.batches_written)
    }
}

/// So many out of so many.
#[derive(Debug, Clone, Copy, PartialEq, Eq, Structural)]
pub struct Share {
    pub part: u64,
    pub whole: u128,
}

/// The share of `part` in `part` and `rest` together, if they are not both zero.
pub open spec fn share_of(part: u64, rest: u64) -> Option<Share> {
    if part == 0 && rest == 0 {
        None
    } else {
        Some(Share { part, whole: (part + rest) as u128 })
    }
}

/// The share of `part` in `part` and `rest` together, if they are not both zero.
fn share(part: u64, rest: u64) -> (r: Option<Share>)
    ensures
        r == share_of(part, rest),
{
    if part == 0 && rest == 0 {
        None
    } else {
        Some(Share { part, whole: part as u128 + rest as u128 })
    }
}

/// A token and how often it was turned away.
#[derive(Debug)]
pub struct TokenCount {
    pub token: String,
    pub count: u64,
}

/// Higher counts stand first.
impl Ranked for TokenCount {
    open spec fn before(&self, other: &TokenCount) -> bool {
        self.count > other.count
    }

    proof fn order_laws(a: &TokenCount, b: &TokenCount, c: &TokenCount) {
    }

    fn stands_before(&self, other: &TokenCount) -> (r: bool) {
        self.count > other.count
    }
}

/// Counts of the rate limiter.
pub struct RateLimitStats {
    pub total_allowed: u64,
    pub total_rejected: u64,
    pub per_token_rejected: DashMap<String, u64, RandomState>,
}

impl Default for RateLimitStats {
    fn default() -> (r: RateLimitStats)
        ensures
            r.total_allowed == 0,
            r.total_rejected == 0,
            maps::counts_in(r.per_token_rejected) == Map::<Seq<char>, u64>::empty(),
    {
        RateLimitStats::new()
    }
}

impl RateLimitStats {
    /// All counts at zero.
    pub fn new() -> (r: RateLimitStats)
        ensures
            r.total_allowed == 0,
            r.total_rejected == 0,
            maps::counts_in(r.per_token_rejected) == Map::<Seq<char>, u64>::empty(),
    {
        RateLimitStats { total_allowed: 0, total_rejected: 0, per_token_rejected: counts_new() }
    }

    /// Counts a request that was let through.
    pub fn record_allowed(&mut self)
        ensures
            final(self).total_allowed == old(self).total_allowed.wrapping_add(1),
            final(self).total_rejected == old(self).total_rejected,
            maps::counts_in(final(self).per_token_rejected) == maps::counts_in(old(self).per_token_rejected),
    {
        self.total_allowed = self.total_allowed.wrapping_add(1);
    }

    /// Counts a request that was turned away, for its client too.
    pub fn record_rejected(&mut self, masked_key: &str)
        ensures
            final(self).total_allowed == old(self).total_allowed,
            final(self).total_rejected == old(self).total_rejected.wrapping_add(1),
            maps::counts_in(final(self).per_token_rejected) == bumped(
                maps::counts_in(old(self).per_token_rejected),
                masked_key@,
            ),
    {
        self.total_rejected = self.total_rejected.wrapping_add(1);
        counts_bump(&mut self.per_token_rejected, masked_key, 1);
    }

    /// The share of requests that were turned away, if there were any requests.
    pub fn rejection_share(&self) -> (r: Option<Share>)
        ensures
            r == share_of(self.total_rejected, self.total_allowed),
    {
        share(self.total_rejected, self.total_allowed)
    }

    /// The clients that were turned away most often, at most `TOP_TOKENS`.
    pub fn top_rejected(&self) -> (r: Vec<TokenCount>)
        ensures
            exists|all: Seq<TokenCount>|
                #![trigger order::sorted(all)]
                maps::lists_counts(all, maps::counts_in(self.per_token_rejected)) && r@ == top_of(all),
    {
        let all = counts_list(&self.per_token_rejected);
        let ghost listed = all@;
        let r = top_counts(all);
        assert(r@ == top_of(listed));
        r
    }
}

/// `m` with the count of `key` one higher.
pub open spec fn bumped(m: Map<Seq<char>, u64>, key: Seq<char>) -> Map<Seq<char>, u64> {
    m.insert(
        key,
        if m.contains_key(key) {
            m[key].wrapping_add(1)
        } else {
            1
        },
    )
}

/// How many clients are listed at most.
pub const TOP_TOKENS: usize = 20;

/// The highest counts of a list, at most `TOP_TOKENS`.
pub open spec fn top_of(all: Seq<TokenCount>) -> Seq<TokenCount> {
    let s = order::sorted(all);
    if s.len() > TOP_TOKENS {
        s.take(TOP_TOKENS as int)
    } else {
        s
    }
}

/// The highest counts of a list, at most `TOP_TOKENS`.
pub fn top_counts(all: Vec<TokenCount>) -> (r: Vec<TokenCount>)
    ensures
        r@ == top_of(all@),
{
    let mut s = sort(all);
    let ghost whole = s@;
    if s.len() > TOP_TOKENS {
        s.truncate(TOP_TOKENS);
        assert(s@ == whole.take(TOP_TOKENS as int));
    }
    s
}

/// No client that is left out was turned away more often than one that is
/// listed, and of those listed none less often than a later one.
pub proof fn lemma_top_is_highest(all: Seq<TokenCount>)
    ensures
        top_of(all).len() <= TOP_TOKENS,
        forall|i: int, j: int|
            0 <= i < j < top_of(all).len() ==> (#[trigger] top_of(all)[i]).count >= (
            #[trigger] top_of(all)[j]).count,
        forall|i: int, j: int|
            0 <= i < top_of(all).len() <= j < order::sorted(all).len() ==> (
            #[trigger] top_of(all)[i]).count >= (#[trigger] order::sorted(all)[j]).count,
{
    order::lemma_sorted_in_order(all);
    let s = order::sorted(all);
    assert forall|i: int| 0 <= i < top_of(all).len() implies #[trigger] top_of(all)[i] == s[i] by {
    }
    assert forall|i: int, j: int| 0 <= i < j < s.len() implies s[i].count >= s[j].count by {
        assert(!s[j].before(&s[i]));
    }
}

/// How many bytes of a token are shown.
pub const SHOWN_BYTES: usize = 8;

/// The first bytes of a token, or all of it where there are no more.
pub open spec fn shown(token: Seq<char>) -> Seq<char> {
    if text::byte_len(token) > SHOWN_BYTES {
        vstd::utf8::decode_utf8(vstd::utf8::encode_utf8(token).subrange(0, SHOWN_BYTES as int))
    } else {
        token
    }
}

/// The key of a client as it may be shown: of a token only its beginning.
pub open spec fn masked(key: Seq<char>) -> Seq<char> {
    match text::after_prefix(key, "bearer:"@) {
        Some(token) => "bearer:"@ + shown(token) + "***"@,
        None => key,
    }
}

/// Whether the bytes of a token that are shown end with a whole character.
pub open spec fn maskable(key: Seq<char>) -> bool {
    text::after_prefix(key, "bearer:"@) matches Some(token) ==> text::byte_len(token) > SHOWN_BYTES
        ==> vstd::utf8::is_char_boundary(vstd::utf8::encode_utf8(token), SHOWN_BYTES as int)
}

/// The key of a client as it may be shown: of a token only its beginning.
pub fn mask_client_key(key: &str) -> (r: String)
    requires
        maskable(key@),
    ensures
        r@ == masked(key@),
{
    match strip_prefix(key, "bearer:") {
        Some(rest) => {
            if byte_length(rest.as_str()) > SHOWN_BYTES {
                let (head, _) = rest.as_str().split_at(SHOWN_BYTES);
                proof {
                    vstd::utf8::encode_utf8_decode_utf8(head@);
                }
                join3("bearer:", head, "***")
            } else {
                join3("bearer:", rest.as_str(), "***")
            }
        },
        None => key.to_owned(),
    }
}

/// Of a long token nothing is shown but its first bytes: two tokens that begin
/// alike are shown alike.
pub proof fn lemma_mask_hides_the_rest(a: Seq<char>, b: Seq<char>)
    requires
        text::byte_len(a) > SHOWN_BYTES,
        text::byte_len(b) > SHOWN_BYTES,
        vstd::utf8::encode_utf8(a).subrange(0, SHOWN_BYTES as int) == vstd::utf8::encode_utf8(
            b,
        ).subrange(0, SHOWN_BYTES as int),
    ensures
        masked("bearer:"@ + a) == masked("bearer:"@ + b),
{
    reveal_strlit("bearer:");
    let x = "bearer:"@ + a;
    let y = "bearer:"@ + b;
    assert(x.take(7) =~= "bearer:"@ && x.skip(7) =~= a);
    assert(y.take(7) =~= "bearer:"@ && y.skip(7) =~= b);
}

}
