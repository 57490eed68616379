//! Rules on the labels of metric points, which keep the number of series down.

use vstd::prelude::*;

use crate::error::ApiError;
use crate::error;
use crate::labels::{Label, Labels};
use crate::labels;
use crate::number::Double;
use crate::order::sort;
use crate::order;
use crate::text::{
    byte_length, contains_text, decimal_text, join, list_items, same, to_ascii_lowercase, trim,
};
use crate::text;
use crate::time::Timestamp;

verus! {

/// What becomes of a point with labels that break the rules.
#[derive(Debug, Clone, Copy, PartialEq, Eq, Structural)]
pub enum LabelOverflowPolicy {
    /// The labels go, the point stays.
    DropLabels,
    /// The point goes.
    RejectPoint,
    /// The whole batch is refused.
    RejectBatch,
}

/// The policy that a word stands for.
pub open spec fn policy_named(s: Seq<char>) -> Option<LabelOverflowPolicy> {
    if s == "drop_labels"@ || s == "drop"@ {
        Some(LabelOverflowPolicy::DropLabels)
    } else if s == "reject_point"@ || s == "reject-point"@ {
        Some(LabelOverflowPolicy::RejectPoint)
    } else if s == "reject_batch"@ || s == "reject-batch"@ {
        Some(LabelOverflowPolicy::RejectBatch)
    } else {
        None
    }
}

impl LabelOverflowPolicy {
    /// The policy that `s` names, whatever its case and the space around it.
    pub fn parse(s: &str) -> (r: Option<LabelOverflowPolicy>)
        ensures
            r == policy_named(text::lowered(text::trimmed(s@))),
    {
        let word = to_ascii_lowercase(trim(s).as_str());
        let w = word.as_str();
        if same(w, "drop_labels") || same(w, "drop") {
            Some(LabelOverflowPolicy::DropLabels)
        } else if same(w, "reject_point") || same(w, "reject-point") {
            Some(LabelOverflowPolicy::RejectPoint)
        } else if same(w, "reject_batch") || same(w, "reject-batch") {
            Some(LabelOverflowPolicy::RejectBatch)
        } else {
            None
        }
    }
}

/// A set of label keys.
#[derive(Debug)]
pub struct KeySet {
    keys: Vec<String>,
}

impl View for KeySet {
    type V = Set<Seq<char>>;

    closed spec fn view(&self) -> Set<Seq<char>> {
        text::texts(self.keys@).to_set()
    }
}

impl KeySet {
    /// The set that holds no key.
    pub fn new() -> (r: KeySet)
        ensures
            r@ == Set::<Seq<char>>::empty(),
    {
        KeySet { keys: Vec::new() }
    }

    /// The set of the keys of a list.
    pub fn from_keys(keys: Vec<String>) -> (r: KeySet)
        ensures
            r@ == text::texts(keys@).to_set(),
    {
        KeySet { keys }
    }

    /// Whether `key` is in the set.
    pub fn contains(&self, key: &str) -> (r: bool)
        ensures
            r == self@.contains(key@),
    {
        contains_text(&self.keys, key)
    }
}

/// The rules on labels.
#[derive(Debug)]
pub struct LabelGovernanceConfig {
    pub max_labels_per_point: usize,
    pub max_label_value_len: usize,
    /// When set, only these label keys are accepted.
    pub allow_keys: Option<KeySet>,
    pub deny_keys: KeySet,
    pub overflow_policy: LabelOverflowPolicy,
}

/// The rules on labels, their sets taken as mathematical ones.
pub ghost struct Rules {
    pub max_labels: nat,
    pub max_value_bytes: nat,
    pub allow: Option<Set<Seq<char>>>,
    pub deny: Set<Seq<char>>,
    pub policy: LabelOverflowPolicy,
}

impl View for LabelGovernanceConfig {
    type V = Rules;

    open spec fn view(&self) -> Rules {
        Rules {
            max_labels: self.max_labels_per_point as nat,
            max_value_bytes: self.max_label_value_len as nat,
            allow: match self.allow_keys {
                Some(k) => Some(k@),
                None => None,
            },
            deny: self.deny_keys@,
            policy: self.overflow_policy,
        }
    }
}

impl Default for LabelGovernanceConfig {
    /// At most 64 labels of at most 256 bytes, any key; what is too much goes.
    fn default() -> (r: LabelGovernanceConfig)
        ensures
            r.max_labels_per_point == 64,
            r.max_label_value_len == 256,
            r.allow_keys is None,
            r.deny_keys@ == Set::<Seq<char>>::empty(),
            r.overflow_policy == LabelOverflowPolicy::DropLabels,
    {
        LabelGovernanceConfig {
            max_labels_per_point: 64,
            max_label_value_len: 256,
            allow_keys: None,
            deny_keys: KeySet::new(),
            overflow_policy: LabelOverflowPolicy::DropLabels,
        }
    }
}

/// How often the rules have struck. The counts wrap around.
#[derive(Debug, Clone, Copy, PartialEq, Eq, Structural)]
pub struct LabelGovernanceStats {
    pub labels_dropped: u64,
    pub points_rejected: u64,
    pub batches_rejected: u64,
}

/// The counts at one moment.
#[derive(Debug, Clone, Copy, PartialEq, Eq, Structural)]
pub struct LabelGovernanceStatsSnapshot {
    pub labels_dropped: u64,
    pub points_rejected: u64,
    pub batches_rejected: u64,
}

impl Default for LabelGovernanceStats {
    fn default() -> (r: LabelGovernanceStats)
        ensures
            r == (LabelGovernanceStats {
                labels_dropped: 0,
                points_rejected: 0,
                batches_rejected: 0,
            }),
    {
        LabelGovernanceStats { labels_dropped: 0, points_rejected: 0, batches_rejected: 0 }
    }
}

impl LabelGovernanceStats {
    /// The counts as they are now.
    pub fn snapshot(&self) -> (r: LabelGovernanceStatsSnapshot)
        ensures
            r.labels_dropped == self.labels_dropped,
            r.points_rejected == self.points_rejected,
            r.batches_rejected == self.batches_rejected,
    {
        LabelGovernanceStatsSnapshot {
            labels_dropped: self.labels_dropped,
            points_rejected: self.points_rejected,
            batches_rejected: self.batches_rejected,
        }
    }
}

/// A metric point as a client sends it.
#[derive(Debug)]
pub struct MetricPointIngest {
    pub name: String,
    pub labels: Labels,
    pub value: Double,
    pub timestamp: Timestamp,
}

/// Which rule a label breaks, in words, if it breaks one.
pub open spec fn violation(rules: Rules, l: Label) -> Option<Seq<char>> {
    if rules.deny.contains(l.key@) {
        Some("metric label key denied: "@ + l.key@)
    } else if rules.allow matches Some(allowed) && !allowed.contains(l.key@) {
        Some("metric label key not allowed: "@ + l.key@)
    } else if text::byte_len(l.value@) > rules.max_value_bytes {
        Some("metric label value too long for key: "@ + l.key@)
    } else {
        None
    }
}

/// The first broken rule, label by label.
pub open spec fn first_violation(rules: Rules, s: Seq<Label>) -> Option<Seq<char>>
    decreases s.len(),
{
    if s.len() == 0 {
        None
    } else {
        match first_violation(rules, s.drop_last()) {
            Some(m) => Some(m),
            None => violation(rules, s.last()),
        }
    }
}

/// The labels that break no rule.
pub open spec fn lawful(rules: Rules, s: Seq<Label>) -> Seq<Label>
    decreases s.len(),
{
    if s.len() == 0 {
        s
    } else {
        let head = lawful(rules, s.drop_last());
        if violation(rules, s.last()) is None {
            head.push(s.last())
        } else {
            head
        }
    }
}

/// The keys of the labels that break a rule.
pub open spec fn unlawful_keys(rules: Rules, s: Seq<Label>) -> Seq<Seq<char>>
    decreases s.len(),
{
    if s.len() == 0 {
        Seq::empty()
    } else {
        let head = unlawful_keys(rules, s.drop_last());
        if violation(rules, s.last()) is None {
            head
        } else {
            head.push(s.last().key@)
        }
    }
}

/// The keys of labels.
pub open spec fn keys_of(s: Seq<Label>) -> Seq<Seq<char>> {
    s.map_values(|l: Label| l.key@)
}

/// What is said of too many labels.
pub open spec fn too_many(n: nat, max: nat) -> Seq<char> {
    "metric has too many labels ("@ + text::decimal(n) + " > "@ + text::decimal(max) + ")"@
}

/// What the rules make of a point's labels: those that stay and the keys of
/// those that go, or why the point is refused.
///
/// Where labels may go, those that break a rule go, and of the rest, if they
/// are too many, the last ones by key. Otherwise the first broken rule decides,
/// and then the number of labels.
pub open spec fn governed(rules: Rules, s: Seq<Label>) -> Result<
    (Seq<Label>, Seq<Seq<char>>),
    Seq<char>,
> {
    if rules.policy == LabelOverflowPolicy::DropLabels {
        let kept = lawful(rules, s);
        let dropped = unlawful_keys(rules, s);
        if kept.len() > rules.max_labels {
            let by_key = order::sorted(kept);
            Ok(
                (
                    by_key.take(rules.max_labels as int),
                    dropped + keys_of(by_key.skip(rules.max_labels as int)),
                ),
            )
        } else {
            Ok((kept, dropped))
        }
    } else {
        match first_violation(rules, s) {
            Some(m) => Err(m),
            None => if s.len() > rules.max_labels {
                Err(too_many(s.len(), rules.max_labels))
            } else {
                Ok((s, Seq::empty()))
            },
        }
    }
}

/// The counts after a point with labels `s` has been looked at.
pub open spec fn stats_after(
    rules: Rules,
    st: LabelGovernanceStats,
    s: Seq<Label>,
) -> LabelGovernanceStats {
    match governed(rules, s) {
        Ok((_, dropped)) => LabelGovernanceStats {
            labels_dropped: st.labels_dropped.wrapping_add(dropped.len() as u64),
            ..st
        },
        Err(_) => if rules.policy == LabelOverflowPolicy::RejectBatch {
            LabelGovernanceStats { batches_rejected: st.batches_rejected.wrapping_add(1), ..st }
        } else {
            LabelGovernanceStats { points_rejected: st.points_rejected.wrapping_add(1), ..st }
        },
    }
}

/// Whether `out` is what a point `p` becomes: itself, but for the labels that
/// go.
pub open spec fn kept_as(rules: Rules, p: MetricPointIngest, out: MetricPointIngest) -> bool {
    &&& governed(rules, p.labels@) matches Ok((kept, _)) && out.labels@ == kept
    &&& out.name == p.name
    &&& out.value == p.value
    &&& out.timestamp == p.timestamp
}

/// The counts after the points `s`, up to and with the first that has the
/// batch refused.
pub open spec fn stats_after_all(
    rules: Rules,
    st: LabelGovernanceStats,
    s: Seq<MetricPointIngest>,
) -> LabelGovernanceStats
    decreases s.len(),
{
    if s.len() == 0 {
        st
    } else if refusal(rules, s.drop_last()) is Some {
        stats_after_all(rules, st, s.drop_last())
    } else {
        stats_after(rules, stats_after_all(rules, st, s.drop_last()), s.last().labels@)
    }
}

/// Why a batch is refused, if it is: what is said of the first point that the
/// rules do not admit.
pub open spec fn refusal(rules: Rules, s: Seq<MetricPointIngest>) -> Option<Seq<char>>
    decreases s.len(),
{
    if rules.policy != LabelOverflowPolicy::RejectBatch || s.len() == 0 {
        None
    } else {
        match refusal(rules, s.drop_last()) {
            Some(m) => Some(m),
            None => match governed(rules, s.last().labels@) {
                Ok(_) => None,
                Err(m) => Some(m),
            },
        }
    }
}

/// The points that are not discarded.
pub open spec fn admitted(rules: Rules, s: Seq<MetricPointIngest>) -> Seq<MetricPointIngest>
    decreases s.len(),
{
    if s.len() == 0 {
        s
    } else {
        let head = admitted(rules, s.drop_last());
        if governed(rules, s.last().labels@) is Ok {
            head.push(s.last())
        } else {
            head
        }
    }
}

/// Where no label breaks a rule, all stay.
pub proof fn lemma_lawful_all(rules: Rules, s: Seq<Label>)
    requires
        first_violation(rules, s) is None,
    ensures
        lawful(rules, s) == s,
        unlawful_keys(rules, s) == Seq::<Seq<char>>::empty(),
    decreases s.len(),
{
    if s.len() > 0 {
        lemma_lawful_all(rules, s.drop_last());
        assert(s.drop_last().push(s.last()) == s);
    }
}

/// The first broken rule of the first labels is the first of all.
proof fn lemma_first_violation_prefix(rules: Rules, s: Seq<Label>, k: int)
    requires
        0 <= k <= s.len(),
        first_violation(rules, s.take(k)) is Some,
    ensures
        first_violation(rules, s) == first_violation(rules, s.take(k)),
    decreases s.len(),
{
    if k < s.len() {
        assert(s.drop_last().take(k) == s.take(k));
        lemma_first_violation_prefix(rules, s.drop_last(), k);
    } else {
        assert(s.take(k) == s);
    }
}

/// What breaks no rule is part of what there was, and its keys differ where
/// the keys of all did.
pub proof fn lemma_lawful_part(rules: Rules, s: Seq<Label>)
    ensures
        labels::distinct_keys(s) ==> labels::distinct_keys(lawful(rules, s)),
        lawful(rules, s).len() + unlawful_keys(rules, s).len() == s.len(),
        forall|i: int|
            0 <= i < lawful(rules, s).len() ==> s.contains(#[trigger] lawful(rules, s)[i])
                && violation(rules, lawful(rules, s)[i]) is None,
    decreases s.len(),
{
    if s.len() > 0 {
        let head = s.drop_last();
        lemma_lawful_part(rules, head);
        let t = lawful(rules, head);
        let r = lawful(rules, s);
        assert forall|i: int| 0 <= i < t.len() implies s.contains(#[trigger] t[i]) && (
        labels::distinct_keys(s) ==> t[i].key@ != s.last().key@) by {
            assert(head.contains(t[i]));
            let j = choose|j: int| 0 <= j < head.len() && head[j] == t[i];
            assert(s[j] == t[i]);
        }
        assert(labels::distinct_keys(s) ==> labels::distinct_keys(head)) by {
            assert forall|i: int, j: int|
                labels::distinct_keys(s) && 0 <= i < j < head.len() implies (
            #[trigger] head[i]).key@ != (#[trigger] head[j]).key@ by {
                assert(head[i] == s[i] && head[j] == s[j]);
            }
        }
        assert(s[s.len() - 1] == s.last());
        assert forall|i: int| 0 <= i < r.len() implies s.contains(#[trigger] r[i]) && violation(
            rules,
            r[i],
        ) is None by {
            if i < t.len() {
                assert(r[i] == t[i]);
            }
        }
    }
}

/// What stays keeps to the rules: no label breaks one, and they are not more
/// than allowed. Each is one of the labels that came, and those that stay and
/// those that go are as many as came.
pub proof fn lemma_governed_keeps_rules(rules: Rules, s: Seq<Label>)
    requires
        labels::distinct_keys(s),
    ensures
        governed(rules, s) matches Ok((kept, dropped)) ==> {
            &&& kept.len() <= rules.max_labels
            &&& kept.len() + dropped.len() == s.len()
            &&& labels::distinct_keys(kept)
            &&& forall|i: int|
                0 <= i < kept.len() ==> s.contains(#[trigger] kept[i]) && violation(rules, kept[i])
                    is None
        },
{
    if governed(rules, s) is Ok {
        let (kept, dropped) = governed(rules, s)->Ok_0;
        lemma_lawful_part(rules, s);
        if rules.policy != LabelOverflowPolicy::DropLabels {
            lemma_lawful_all(rules, s);
        } else if lawful(rules, s).len() > rules.max_labels {
            let l = lawful(rules, s);
            labels::lemma_sorted_distinct(l);
            order::lemma_sorted_same_items(l);
            assert forall|i: int| 0 <= i < kept.len() implies s.contains(#[trigger] kept[i])
                && violation(rules, kept[i]) is None by {
                assert(kept[i] == order::sorted(l)[i]);
                assert(l.contains(order::sorted(l)[i]));
                let j = choose|j: int| 0 <= j < l.len() && l[j] == kept[i];
                assert(s.contains(l[j]));
            }
            assert forall|i: int, j: int| 0 <= i < j < kept.len() implies (#[trigger] kept[i]).key@
                != (#[trigger] kept[j]).key@ by {
                assert(kept[i] == order::sorted(l)[i] && kept[j] == order::sorted(l)[j]);
            }
        }
    }
}

/// The labels that break no rule are those of all that break none.
proof fn lemma_lawful_members(rules: Rules, s: Seq<Label>)
    ensures
        forall|l: Label| #[trigger]
            lawful(rules, s).contains(l) == (s.contains(l) && violation(rules, l) is None),
    decreases s.len(),
{
    if s.len() > 0 {
        let head = s.drop_last();
        lemma_lawful_members(rules, head);
        let t = lawful(rules, head);
        let r = lawful(rules, s);
        assert forall|l: Label| #[trigger] r.contains(l) == (s.contains(l) && violation(rules, l)
            is None) by {
            assert(t.contains(l) == (head.contains(l) && violation(rules, l) is None));
            if r.contains(l) {
                let i = choose|i: int| 0 <= i < r.len() && r[i] == l;
                if i < t.len() {
                    assert(t[i] == l);
                    let j = choose|j: int| 0 <= j < head.len() && head[j] == l;
                    assert(s[j] == l);
                } else {
                    assert(s[s.len() - 1] == l);
                }
            }
            if s.contains(l) && violation(rules, l) is None {
                let j = choose|j: int| 0 <= j < s.len() && s[j] == l;
                if j < head.len() {
                    assert(head[j] == l);
                    let i = choose|i: int| 0 <= i < t.len() && t[i] == l;
                    assert(r[i] == l);
                } else {
                    assert(r[t.len() as int] == l);
                }
            }
        }
    }
}

/// A rule is broken exactly where a label breaks one.
proof fn lemma_violation_somewhere(rules: Rules, s: Seq<Label>)
    ensures
        (first_violation(rules, s) is None) == (forall|l: Label| #[trigger]
            s.contains(l) ==> violation(rules, l) is None),
    decreases s.len(),
{
    if s.len() > 0 {
        let head = s.drop_last();
        lemma_violation_somewhere(rules, head);
        assert(s[s.len() - 1] == s.last());
        assert(s.contains(s.last()));
        if first_violation(rules, s) is None {
            assert forall|l: Label| #[trigger] s.contains(l) implies violation(rules, l) is None by {
                let j = choose|j: int| 0 <= j < s.len() && s[j] == l;
                if j < head.len() {
                    assert(head[j] == l);
                    assert(head.contains(l));
                }
            }
        } else if first_violation(rules, head) is Some {
            let l = choose|l: Label| #[trigger] head.contains(l) && violation(rules, l) is Some;
            let j = choose|j: int| 0 <= j < head.len() && head[j] == l;
            assert(s[j] == l);
            assert(s.contains(l));
        }
    }
}

/// The order in which labels come does not matter: the same labels pass or are
/// refused, and the same labels stay.
pub proof fn lemma_label_order_does_not_matter(rules: Rules, a: Seq<Label>, b: Seq<Label>)
    requires
        labels::distinct_keys(a),
        labels::distinct_keys(b),
        forall|l: Label| #[trigger] a.contains(l) == #[trigger] b.contains(l),
    ensures
        governed(rules, a) is Ok == governed(rules, b) is Ok,
        governed(rules, a) matches Ok((kept_a, _)) ==> governed(rules, b) matches Ok((kept_b, _))
            ==> forall|l: Label| #[trigger] kept_a.contains(l) == #[trigger] kept_b.contains(l),
{
    labels::lemma_same_labels_same_len(a, b);
    if rules.policy == LabelOverflowPolicy::DropLabels {
        let x = lawful(rules, a);
        let y = lawful(rules, b);
        lemma_lawful_members(rules, a);
        lemma_lawful_members(rules, b);
        lemma_lawful_part(rules, a);
        lemma_lawful_part(rules, b);
        assert forall|l: Label| #[trigger] x.contains(l) == #[trigger] y.contains(l) by {
            assert(a.contains(l) == b.contains(l));
        }
        labels::lemma_same_labels_same_len(x, y);
        labels::lemma_one_order(x, y);
    } else {
        lemma_violation_somewhere(rules, a);
        lemma_violation_somewhere(rules, b);
        if first_violation(rules, a) is None {
            assert forall|l: Label| #[trigger] b.contains(l) implies violation(rules, l) is None by {
                assert(a.contains(l) == b.contains(l));
            }
        }
        if first_violation(rules, b) is None {
            assert forall|l: Label| #[trigger] a.contains(l) implies violation(rules, l) is None by {
                assert(a.contains(l) == b.contains(l));
            }
        }
    }
}

/// Labels that break no rule and are not too many stay as they are, whatever
/// the policy.
pub proof fn lemma_lawful_point_untouched(rules: Rules, s: Seq<Label>)
    requires
        first_violation(rules, s) is None,
        s.len() <= rules.max_labels,
    ensures
        governed(rules, s) == Ok::<(Seq<Label>, Seq<Seq<char>>), Seq<char>>((s, Seq::empty())),
{
    lemma_lawful_all(rules, s);
}

/// Where labels may go, no point is discarded and no batch refused.
pub proof fn lemma_dropping_labels_loses_no_point(rules: Rules, s: Seq<MetricPointIngest>)
    requires
        rules.policy == LabelOverflowPolicy::DropLabels,
    ensures
        refusal(rules, s) is None,
        admitted(rules, s) == s,
    decreases s.len(),
{
    if s.len() > 0 {
        lemma_dropping_labels_loses_no_point(rules, s.drop_last());
        assert(s.drop_last().push(s.last()) == s);
    }
}

/// A batch is stored whole or not at all where batches are refused.
pub proof fn lemma_batch_whole_or_refused(rules: Rules, s: Seq<MetricPointIngest>)
    requires
        rules.policy == LabelOverflowPolicy::RejectBatch,
    ensures
        refusal(rules, s) is None ==> admitted(rules, s) == s,
        refusal(rules, s) is None <==> forall|i: int|
            0 <= i < s.len() ==> governed(rules, (#[trigger] s[i]).labels@) is Ok,
    decreases s.len(),
{
    if s.len() > 0 {
        let head = s.drop_last();
        lemma_batch_whole_or_refused(rules, head);
        assert(head.push(s.last()) == s);
        assert(s[s.len() - 1] == s.last());
        assert forall|i: int| 0 <= i < head.len() implies head[i] == #[trigger] s[i] by {}
    }
}

/// What stays when the rules have been applied stays as it is when they are
/// applied again, and nothing more goes.
pub proof fn lemma_governed_twice(rules: Rules, s: Seq<Label>)
    ensures
        governed(rules, s) matches Ok((kept, _)) ==> governed(rules, kept) == Ok::<
            (Seq<Label>, Seq<Seq<char>>),
            Seq<char>,
        >((kept, Seq::empty())),
{
    if governed(rules, s) is Ok {
        let (kept, _) = governed(rules, s)->Ok_0;
        if rules.policy == LabelOverflowPolicy::DropLabels {
            let l = lawful(rules, s);
            lemma_lawful_part(rules, s);
            assert forall|x: Label| #[trigger] kept.contains(x) implies violation(rules, x)
                is None by {
                let i = choose|i: int| 0 <= i < kept.len() && kept[i] == x;
                if l.len() > rules.max_labels {
                    order::lemma_sorted_same_items(l);
                    assert(l.contains(x)) by {
                        broadcast use vstd::seq_lib::group_to_multiset_ensures;

                        assert(order::sorted(l)[i] == x);
                        assert(order::sorted(l).contains(x));
                        assert(order::sorted(l).to_multiset().count(x) > 0);
                    }
                }
                let j = choose|j: int| 0 <= j < l.len() && l[j] == x;
                assert(violation(rules, l[j]) is None);
            }
            if l.len() > rules.max_labels {
                order::lemma_sorted_same_items(l);
            }
            lemma_violation_somewhere(rules, kept);
        }
        lemma_lawful_point_untouched(rules, kept);
    }
}

/// Governing a batch that has been governed changes nothing: it is not refused, no
/// point is discarded, each point stays as it is, and nothing more is counted.
pub proof fn lemma_batch_governed_twice(
    rules: Rules,
    st: LabelGovernanceStats,
    s: Seq<MetricPointIngest>,
    out: Seq<MetricPointIngest>,
)
    requires
        refusal(rules, s) is None,
        all_kept_as(rules, admitted(rules, s), out),
    ensures
        refusal(rules, out) is None,
        admitted(rules, out) == out,
        all_kept_as(rules, out, out),
        stats_after_all(rules, st, out) == st,
{
    assert forall|i: int| 0 <= i < out.len() implies governed(rules, (#[trigger] out[i]).labels@)
        == Ok::<(Seq<Label>, Seq<Seq<char>>), Seq<char>>((out[i].labels@, Seq::empty())) by {
        assert(kept_as(rules, admitted(rules, s)[i], out[i]));
        lemma_governed_twice(rules, admitted(rules, s)[i].labels@);
    }
    lemma_lawful_batch(rules, st, out);
}

/// A batch in which the rules leave every point as it is passes as it is.
proof fn lemma_lawful_batch(rules: Rules, st: LabelGovernanceStats, s: Seq<MetricPointIngest>)
    requires
        forall|i: int|
            0 <= i < s.len() ==> governed(rules, (#[trigger] s[i]).labels@) == Ok::<
                (Seq<Label>, Seq<Seq<char>>),
                Seq<char>,
            >((s[i].labels@, Seq::empty())),
    ensures
        refusal(rules, s) is None,
        admitted(rules, s) == s,
        stats_after_all(rules, st, s) == st,
    decreases s.len(),
{
    if s.len() > 0 {
        let head = s.drop_last();
        assert forall|i: int| 0 <= i < head.len() implies governed(
            rules,
            (#[trigger] head[i]).labels@,
        ) == Ok::<(Seq<Label>, Seq<Seq<char>>), Seq<char>>((head[i].labels@, Seq::empty())) by {
            assert(head[i] == s[i]);
        }
        lemma_lawful_batch(rules, st, head);
        assert(s[s.len() - 1] == s.last());
        assert(head.push(s.last()) == s);
    }
}

/// How many labels are cut from the points of a batch.
pub open spec fn labels_cut(rules: Rules, s: Seq<MetricPointIngest>) -> nat
    decreases s.len(),
{
    if s.len() == 0 {
        0
    } else {
        labels_cut(rules, s.drop_last()) + match governed(rules, s.last().labels@) {
            Ok((_, dropped)) => dropped.len(),
            Err(_) => 0,
        }
    }
}

/// The counters tell what was done: of a batch that passes, how many points were
/// discarded and how many labels were cut; of a batch that is refused, that it
/// was, and nothing else.
pub proof fn lemma_counters_tell(
    rules: Rules,
    st: LabelGovernanceStats,
    s: Seq<MetricPointIngest>,
)
    requires
        st.labels_dropped + labels_cut(rules, s) <= u64::MAX,
        st.points_rejected + s.len() <= u64::MAX,
        st.batches_rejected < u64::MAX,
    ensures
        ({
            let after = stats_after_all(rules, st, s);
            if refusal(rules, s) is Some {
                after == (LabelGovernanceStats {
                    batches_rejected: (st.batches_rejected + 1) as u64,
                    ..st
                })
            } else {
                &&& after.labels_dropped == st.labels_dropped + labels_cut(rules, s)
                &&& after.points_rejected == st.points_rejected + (s.len() - admitted(
                    rules,
                    s,
                ).len())
                &&& after.batches_rejected == st.batches_rejected
            }
        }),
        admitted(rules, s).len() <= s.len(),
        rules.policy == LabelOverflowPolicy::RejectBatch ==> labels_cut(rules, s) == 0,
    decreases s.len(),
{
    if s.len() > 0 {
        lemma_counters_tell(rules, st, s.drop_last());
        if rules.policy == LabelOverflowPolicy::RejectBatch {
            lemma_batch_whole_or_refused(rules, s.drop_last());
        }
    }
}

/// Rules on labels, and how often they have struck.
#[derive(Debug)]
pub struct LabelGovernance {
    pub config: LabelGovernanceConfig,
    pub stats: LabelGovernanceStats,
}

impl Default for LabelGovernance {
    fn default() -> (r: LabelGovernance)
        ensures
            r.config.max_labels_per_point == 64,
            r.config.max_label_value_len == 256,
            r.config.allow_keys is None,
            r.config.deny_keys@ == Set::<Seq<char>>::empty(),
            r.config.overflow_policy == LabelOverflowPolicy::DropLabels,
            r.stats.labels_dropped == 0,
            r.stats.points_rejected == 0,
            r.stats.batches_rejected == 0,
    {
        LabelGovernance::new(LabelGovernanceConfig::default())
    }
}

impl LabelGovernance {
    /// The rules `config`, which have not struck yet.
    pub fn new(config: LabelGovernanceConfig) -> (r: LabelGovernance)
        ensures
            r.config == config,
            r.stats.labels_dropped == 0,
            r.stats.points_rejected == 0,
            r.stats.batches_rejected == 0,
    {
        LabelGovernance { config, stats: LabelGovernanceStats::default() }
    }

    /// Which rule a label breaks, if it breaks one.
    fn violation_of(&self, l: &Label) -> (r: Option<String>)
        ensures
            text::opt_text(r) == violation(self.config@, *l),
    {
        let key = l.key.as_str();
        if self.config.deny_keys.contains(key) {
            return Some(join("metric label key denied: ", key));
        }
        if let Some(allowed) = &self.config.allow_keys {
            if !allowed.contains(key) {
                return Some(join("metric label key not allowed: ", key));
            }
        }
        if byte_length(l.value.as_str()) > self.config.max_label_value_len {
            return Some(join("metric label value too long for key: ", key));
        }
        None
    }

    /// Whether the labels break no rule and are not too many; which it is that
    /// they do, if not.
    pub fn check_violations(&self, labels: &Labels) -> (r: Result<(), ApiError>)
        ensures
            match first_violation(self.config@, labels@) {
                Some(m) => r matches Err(e) && e@ == error::ErrorModel::BadRequest(m),
                None => if labels@.len() > self.config@.max_labels {
                    r matches Err(e) && e@ == error::ErrorModel::BadRequest(
                        too_many(labels@.len(), self.config@.max_labels),
                    )
                } else {
                    r is Ok
                },
            },
    {
        let mut i: usize = 0;
        while i < labels.len()
            invariant
                0 <= i <= labels@.len(),
                first_violation(self.config@, labels@.take(i as int)) is None,
            decreases labels@.len() - i,
        {
            proof {
                assert(labels@.take(i + 1).drop_last() == labels@.take(i as int));
                assert(labels@.take(i + 1).last() == labels@[i as int]);
            }
            if let Some(message) = self.violation_of(labels.at(i)) {
                proof {
                    lemma_first_violation_prefix(self.config@, labels@, i + 1);
                }
                return Err(ApiError::BadRequest(message));
            }
            i += 1;
        }
        assert(labels@.take(labels@.len() as int) == labels@);
        if labels.len() > self.config.max_labels_per_point {
            return Err(
                ApiError::BadRequest(
                    too_many_text(labels.len(), self.config.max_labels_per_point),
                ),
            );
        }
        Ok(())
    }

    /// What the rules make of a point's labels: those that stay and the keys of
    /// those that go, or why the point is refused.
    pub fn govern_labels(&self, labels: Labels) -> (r: Result<(Labels, Vec<String>), ApiError>)
        ensures
            match governed(self.config@, labels@) {
                Ok((kept, dropped)) => r matches Ok((l, d)) && l@ == kept && text::texts(d@)
                    == dropped,
                Err(m) => r matches Err(e) && e@ == error::ErrorModel::BadRequest(m),
            },
    {
        let ghost rules = self.config@;
        let policy = self.config.overflow_policy;
        let max = self.config.max_labels_per_point;
        if policy == LabelOverflowPolicy::RejectBatch {
            if let Err(e) = self.check_violations(&labels) {
                return Err(e);
            }
        }
        let mut dropped: Vec<String> = Vec::new();
        let mut kept: Vec<Label> = Vec::new();
        let pairs = labels.into_pairs();
        let ghost all = labels@;
        assert(all.take(0) == Seq::<Label>::empty());
        for label in it: pairs
            invariant
                it.seq() == all,
                all == labels@,
                rules == self.config@,
                policy == rules.policy,
                policy == LabelOverflowPolicy::RejectBatch ==> first_violation(rules, all) is None,
                policy != LabelOverflowPolicy::DropLabels ==> first_violation(
                    rules,
                    all.take(it.index() as int),
                ) is None,
                kept@ == lawful(rules, all.take(it.index() as int)),
                text::texts(dropped@) == unlawful_keys(rules, all.take(it.index() as int)),
        {
            let ghost i = it.index() as int;
            assert(all.take(i + 1).drop_last() == all.take(i));
            assert(all.take(i + 1).last() == label);
            if let Some(message) = self.violation_of(&label) {
                if policy != LabelOverflowPolicy::DropLabels {
                    proof {
                        lemma_first_violation_prefix(rules, all, i + 1);
                    }
                    return Err(ApiError::BadRequest(message));
                }
                let ghost before = dropped@;
                dropped.push(label.key);
                assert(text::texts(dropped@) == text::texts(before).push(label.key@));
            } else {
                kept.push(label);
            }
        }
        assert(all.take(all.len() as int) == all);
        proof {
            lemma_lawful_part(rules, all);
            if policy != LabelOverflowPolicy::DropLabels {
                lemma_lawful_all(rules, all);
            }
        }
        if kept.len() > max {
            if policy != LabelOverflowPolicy::DropLabels {
                return Err(ApiError::BadRequest(too_many_text(kept.len(), max)));
            }
            let ghost lawful_ones = kept@;
            let mut by_key = sort(kept);
            let ghost sorted_ones = by_key@;
            proof {
                labels::lemma_sorted_distinct(lawful_ones);
                order::lemma_sorted_same_items(lawful_ones);
            }
            let excess = by_key.split_off(max);
            let ghost tail = excess@;
            assert(tail == sorted_ones.skip(max as int));
            assert(by_key@ == sorted_ones.take(max as int));
            let ghost unlawful = text::texts(dropped@);
            assert(tail.take(0) == Seq::<Label>::empty());
            for label in it: excess
                invariant
                    it.seq() == tail,
                    text::texts(dropped@) == unlawful + keys_of(tail.take(it.index() as int)),
            {
                let ghost i = it.index() as int;
                let ghost before = dropped@;
                dropped.push(label.key);
                assert(text::texts(dropped@) == text::texts(before).push(label.key@));
                assert(keys_of(tail.take(i + 1)) == keys_of(tail.take(i)).push(label.key@));
            }
            assert(tail.take(tail.len() as int) == tail);
            assert(labels::distinct_keys(by_key@)) by {
                assert forall|i: int, j: int| 0 <= i < j < by_key@.len() implies (
                #[trigger] by_key@[i]).key@ != (#[trigger] by_key@[j]).key@ by {
                    assert(by_key@[i] == sorted_ones[i] && by_key@[j] == sorted_ones[j]);
                }
            }
            return Ok((Labels::from_distinct(by_key), dropped));
        }
        Ok((Labels::from_distinct(kept), dropped))
    }

    /// A point as it is stored, or nothing where the point is discarded, or
    /// why its batch is refused.
    pub fn apply_point(&mut self, point: MetricPointIngest) -> (r: Result<
        Option<MetricPointIngest>,
        ApiError,
    >)
        ensures
            final(self).config == old(self).config,
            final(self).stats == stats_after(old(self).config@, old(self).stats, point.labels@),
            match governed(old(self).config@, point.labels@) {
                Ok(_) => r matches Ok(Some(out)) && kept_as(old(self).config@, point, out),
                Err(m) => if old(self).config@.policy == LabelOverflowPolicy::RejectBatch {
                    r matches Err(e) && e@ == error::ErrorModel::BadRequest(m)
                } else {
                    r matches Ok(None)
                },
            },
    {
        match self.govern_labels(point.labels) {
            Ok((labels, dropped)) => {
                let n = dropped.len() as u64;
                assert(text::texts(dropped@).len() == dropped@.len());
                self.stats.labels_dropped = self.stats.labels_dropped.wrapping_add(n);
                Ok(
                    Some(
                        MetricPointIngest {
                            name: point.name,
                            labels,
                            value: point.value,
                            timestamp: point.timestamp,
                        },
                    ),
                )
            },
            Err(e) => if self.config.overflow_policy == LabelOverflowPolicy::RejectBatch {
                self.stats.batches_rejected = self.stats.batches_rejected.wrapping_add(1);
                Err(e)
            } else {
                self.stats.points_rejected = self.stats.points_rejected.wrapping_add(1);
                Ok(None)
            },
        }
    }

    /// The points of a batch as they are stored, or why the batch is refused.
    pub fn apply_batch(&mut self, points: Vec<MetricPointIngest>) -> (r: Result<
        Vec<MetricPointIngest>,
        ApiError,
    >)
        ensures
            final(self).config == old(self).config,
            final(self).stats == stats_after_all(old(self).config@, old(self).stats, points@),
            match refusal(old(self).config@, points@) {
                Some(m) => r matches Err(e) && e@ == error::ErrorModel::BadRequest(m),
                None => r matches Ok(out) && all_kept_as(
                    old(self).config@,
                    admitted(old(self).config@, points@),
                    out@,
                ),
            },
    {
        let ghost rules = self.config@;
        let ghost st = self.stats;
        let ghost all = points@;
        let mut out: Vec<MetricPointIngest> = Vec::new();
        assert(all.take(0) == Seq::<MetricPointIngest>::empty());
        for point in it: points
            invariant
                it.seq() == all,
                self.config == old(self).config,
                rules == old(self).config@,
                st == old(self).stats,
                refusal(rules, all.take(it.index() as int)) is None,
                self.stats == stats_after_all(rules, st, all.take(it.index() as int)),
                all_kept_as(rules, admitted(rules, all.take(it.index() as int)), out@),
        {
            let ghost i = it.index() as int;
            assert(all.take(i + 1).drop_last() == all.take(i));
            assert(all.take(i + 1).last() == point);
            let ghost done = admitted(rules, all.take(i));
            match self.apply_point(point) {
                Ok(Some(p)) => {
                    let ghost before = out@;
                    out.push(p);
                    assert forall|j: int| 0 <= j < out@.len() implies kept_as(
                        rules,
                        done.push(point)[j],
                        #[trigger] out@[j],
                    ) by {
                        if j < before.len() {
                            assert(out@[j] == before[j]);
                            assert(done.push(point)[j] == done[j]);
                        }
                    }
                },
                Ok(None) => {},
                Err(e) => {
                    proof {
                        lemma_refusal_prefix(rules, st, all, i + 1);
                    }
                    return Err(e);
                },
            }
        }
        assert(all.take(all.len() as int) == all);
        Ok(out)
    }
}

/// What is said of too many labels.
fn too_many_text(n: usize, max: usize) -> (r: String)
    ensures
        r@ == too_many(n as nat, max as nat),
{
    let mut s = join("metric has too many labels (", decimal_text(n as u64).as_str());
    s.append(" > ");
    s.append(decimal_text(max as u64).as_str());
    s.append(")");
    s
}

/// Whether each point of `out` is what the point of `s` at its place becomes.
pub open spec fn all_kept_as(
    rules: Rules,
    s: Seq<MetricPointIngest>,
    out: Seq<MetricPointIngest>,
) -> bool {
    &&& out.len() == s.len()
    &&& forall|j: int| 0 <= j < out.len() ==> kept_as(rules, s[j], #[trigger] out[j])
}

/// A batch that is refused for its first points is refused for them, whatever
/// follows, and what follows is not counted.
proof fn lemma_refusal_prefix(
    rules: Rules,
    st: LabelGovernanceStats,
    s: Seq<MetricPointIngest>,
    k: int,
)
    requires
        0 <= k <= s.len(),
        refusal(rules, s.take(k)) is Some,
    ensures
        refusal(rules, s) == refusal(rules, s.take(k)),
        stats_after_all(rules, st, s) == stats_after_all(rules, st, s.take(k)),
    decreases s.len(),
{
    if k < s.len() {
        assert(s.drop_last().take(k) == s.take(k));
        lemma_refusal_prefix(rules, st, s.drop_last(), k);
    } else {
        assert(s.take(k) == s);
    }
}

/// The keys that `raw` lists, if it lists any.
pub fn parse_label_key_set(raw: Option<&str>) -> (r: Option<KeySet>)
    ensures
        match text::opt_str(raw) {
            None => r is None,
            Some(s) => if text::items_of(text::trimmed(s)).len() == 0 {
                r is None
            } else {
                r matches Some(keys) && keys@ == text::items_of(text::trimmed(s)).to_set()
            },
        },
{
    match raw {
        None => None,
        Some(s) => {
            let items = list_items(trim(s).as_str());
            if items.len() == 0 {
                None
            } else {
                Some(KeySet::from_keys(items))
            }
        },
    }
}

}
