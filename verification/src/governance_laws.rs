//! Laws of the rules on labels: which labels break a rule, which stay, and what
//! becomes of points and batches.

use vstd::prelude::*;

use crate::label_governance;
use crate::label_governance::{LabelOverflowPolicy, MetricPointIngest};
use crate::labels;
use crate::labels::Label;
use crate::order;
use crate::order::Ranked;
use crate::text;

verus! {

/// Whether a label may stand: its key is not denied, is one of those allowed
/// where only some are, and its value is not too long.
pub open spec fn may_stand(rules: label_governance::Rules, l: Label) -> bool {
    &&& !rules.deny.contains(l.key@)
    &&& rules.allow matches Some(allowed) ==> allowed.contains(l.key@)
    &&& vstd::utf8::encode_utf8(l.value@).len() <= rules.max_value_bytes
}

/// A label breaks a rule if and only if it may not stand, and what is said of it
/// names its key and the rule: one that is denied, or else one that is not
/// allowed, or else the length of the value.
pub proof fn lemma_broken_rules(rules: label_governance::Rules, l: Label)
    ensures
        label_governance::violation(rules, l) is None <==> may_stand(rules, l),
        rules.deny.contains(l.key@) ==> label_governance::violation(rules, l) == Some(
            "metric label key denied: "@ + l.key@,
        ),
        !rules.deny.contains(l.key@) ==> (rules.allow matches Some(allowed) ==> (!allowed.contains(
            l.key@,
        ) ==> label_governance::violation(rules, l) == Some(
            "metric label key not allowed: "@ + l.key@,
        ))),
        !rules.deny.contains(l.key@) && (rules.allow matches Some(allowed) ==> allowed.contains(
            l.key@,
        )) && !may_stand(rules, l) ==> label_governance::violation(rules, l) == Some(
            "metric label value too long for key: "@ + l.key@,
        ),
{
}

/// The labels that break no rule are those that may stand, in the order in which
/// they came; the keys of the others are listed in that order too.
pub proof fn lemma_lawful_may_stand(rules: label_governance::Rules, s: Seq<Label>)
    ensures
        label_governance::lawful(rules, s) == s.filter(|l: Label| may_stand(rules, l)),
        label_governance::unlawful_keys(rules, s) == s.filter(
            |l: Label| !may_stand(rules, l),
        ).map_values(|l: Label| l.key@),
    decreases s.len(),
{
    reveal(Seq::filter);
    let good = |l: Label| may_stand(rules, l);
    let bad = |l: Label| !may_stand(rules, l);
    let key = |l: Label| l.key@;
    if s.len() > 0 {
        lemma_lawful_may_stand(rules, s.drop_last());
        lemma_broken_rules(rules, s.last());
        let head = s.drop_last().filter(bad);
        assert(head.push(s.last()).map_values(key) =~= head.map_values(key).push(s.last().key@));
    } else {
        assert(s.filter(good) =~= s);
        assert(s.filter(bad).map_values(key) =~= Seq::<Seq<char>>::empty());
    }
}

/// Where labels may go, those that may not stand go. If no more are left than
/// are allowed, all that are left stay, as they came. If more are left, as many
/// stay as are allowed, and no label that goes for that has a key that comes
/// before that of one that stays.
pub proof fn lemma_labels_dropped(rules: label_governance::Rules, s: Seq<Label>)
    requires
        rules.policy == LabelOverflowPolicy::DropLabels,
    ensures
        ({
            let left = s.filter(|l: Label| may_stand(rules, l));
            label_governance::governed(rules, s) matches Ok((kept, dropped)) && {
                &&& left.len() <= rules.max_labels ==> kept == left && dropped == s.filter(
                    |l: Label| !may_stand(rules, l),
                ).map_values(|l: Label| l.key@)
                &&& left.len() > rules.max_labels ==> {
                    &&& kept.len() == rules.max_labels
                    &&& forall|i: int| 0 <= i < kept.len() ==> left.contains(#[trigger] kept[i])
                    &&& forall|i: int, j: int|
                        0 <= i < j < kept.len() ==> !text::text_lt(
                            (#[trigger] kept[j]).key@,
                            (#[trigger] kept[i]).key@,
                        )
                    &&& forall|l: Label, i: int|
                        0 <= i < kept.len() && left.contains(l) && !kept.contains(l)
                            ==> !text::text_lt(
                            #[trigger] (l.key@),
                            (#[trigger] kept[i]).key@,
                        )
                    &&& forall|l: Label| #[trigger]
                        s.contains(l) ==> kept.contains(l) || dropped.contains(l.key@)
                    &&& dropped.len() == s.len() - kept.len()
                }
            }
        }),
{
    lemma_lawful_may_stand(rules, s);
    let left = label_governance::lawful(rules, s);
    let gone = label_governance::unlawful_keys(rules, s);
    label_governance::lemma_lawful_part(rules, s);
    if left.len() > rules.max_labels {
        let by_key = order::sorted(left);
        let n = rules.max_labels as int;
        let kept = by_key.take(n);
        let rest = by_key.skip(n);
        let dropped = gone + label_governance::keys_of(rest);
        order::lemma_sorted_in_order(left);
        order::lemma_sorted_same_items(left);
        broadcast use vstd::seq_lib::group_to_multiset_ensures;

        assert forall|l: Label| #[trigger] by_key.contains(l) == left.contains(l) by {
            assert(by_key.to_multiset().count(l) == left.to_multiset().count(l));
        }
        assert forall|i: int| 0 <= i < kept.len() implies left.contains(#[trigger] kept[i]) by {
            assert(by_key.contains(by_key[i]));
        }
        assert forall|i: int, j: int| 0 <= i < j < kept.len() implies !text::text_lt(
            (#[trigger] kept[j]).key@,
            (#[trigger] kept[i]).key@,
        ) by {
            assert(!by_key[j].before(&by_key[i]));
        }
        assert forall|l: Label, i: int|
            0 <= i < kept.len() && left.contains(l) && !kept.contains(l) implies !text::text_lt(
            #[trigger] (l.key@),
            (#[trigger] kept[i]).key@,
        ) by {
            assert(by_key.contains(l));
            let j = choose|j: int| 0 <= j < by_key.len() && by_key[j] == l;
            if j < n {
                assert(kept[j] == l);
            }
            assert(!by_key[j].before(&by_key[i]));
        }
        assert forall|l: Label| #[trigger] s.contains(l) implies kept.contains(l)
            || dropped.contains(l.key@) by {
            let k = choose|k: int| 0 <= k < s.len() && s[k] == l;
            lemma_sorted_apart(rules, s, k);
            if left.contains(l) {
                assert(by_key.contains(l));
                let j = choose|j: int| 0 <= j < by_key.len() && by_key[j] == l;
                if j < n {
                    assert(kept[j] == l);
                } else {
                    assert(label_governance::keys_of(rest)[j - n] == l.key@);
                    assert(dropped[gone.len() + j - n] == l.key@);
                }
            } else {
                let g = choose|g: int| 0 <= g < gone.len() && gone[g] == l.key@;
                assert(dropped[g] == l.key@);
            }
        }
    }
}

/// A label that came may stand, or its key is among those that break a rule.
proof fn lemma_sorted_apart(rules: label_governance::Rules, s: Seq<Label>, k: int)
    requires
        0 <= k < s.len(),
    ensures
        label_governance::lawful(rules, s).contains(s[k]) || label_governance::unlawful_keys(
            rules,
            s,
        ).contains(s[k].key@),
    decreases s.len(),
{
    let head = s.drop_last();
    let good = label_governance::lawful(rules, s);
    let bad = label_governance::unlawful_keys(rules, s);
    if k < head.len() {
        lemma_sorted_apart(rules, head, k);
        let x = label_governance::lawful(rules, head);
        let y = label_governance::unlawful_keys(rules, head);
        if x.contains(head[k]) {
            let i = choose|i: int| 0 <= i < x.len() && x[i] == head[k];
            assert(good[i] == s[k]);
        } else {
            let i = choose|i: int| 0 <= i < y.len() && y[i] == head[k].key@;
            assert(bad[i] == s[k].key@);
        }
    } else if label_governance::violation(rules, s.last()) is None {
        assert(good.last() == s[k]);
    } else {
        assert(bad.last() == s[k].key@);
    }
}

/// What is said of the first label that may not stand is said of the labels.
pub proof fn lemma_first_broken_rule(rules: label_governance::Rules, s: Seq<Label>, k: int)
    requires
        0 <= k <= s.len(),
        forall|i: int| 0 <= i < k ==> may_stand(rules, #[trigger] s[i]),
        k < s.len() ==> !may_stand(rules, s[k]),
    ensures
        k < s.len() ==> label_governance::first_violation(rules, s) == label_governance::violation(
            rules,
            s[k],
        ),
        k == s.len() ==> label_governance::first_violation(rules, s) is None,
    decreases s.len(),
{
    if s.len() > 0 {
        let head = s.drop_last();
        if k < head.len() {
            lemma_first_broken_rule(rules, head, k);
            lemma_broken_rules(rules, s[k]);
        } else {
            lemma_first_broken_rule(rules, head, head.len() as int);
            lemma_broken_rules(rules, s.last());
        }
    }
}

/// Where no label may go, a point passes if and only if all its labels may stand
/// and they are not too many, and then it keeps them all. If one may not stand,
/// what is said of the first such one is the answer, however many there are; else
/// the answer names the number of labels and the number allowed.
pub proof fn lemma_point_whole_or_refused(rules: label_governance::Rules, s: Seq<Label>, k: int)
    requires
        rules.policy != LabelOverflowPolicy::DropLabels,
        0 <= k <= s.len(),
        forall|i: int| 0 <= i < k ==> may_stand(rules, #[trigger] s[i]),
        k < s.len() ==> !may_stand(rules, s[k]),
    ensures
        label_governance::governed(rules, s) is Ok <==> k == s.len() && s.len()
            <= rules.max_labels,
        label_governance::governed(rules, s) matches Ok((kept, dropped)) ==> kept == s
            && dropped.len() == 0,
        k < s.len() ==> (label_governance::governed(rules, s) matches Err(m) && Some(m)
            == label_governance::violation(rules, s[k])),
        k == s.len() && s.len() > rules.max_labels ==> (label_governance::governed(rules, s)
            matches Err(m) && m == "metric has too many labels ("@ + text::decimal(s.len())
            + " > "@ + text::decimal(rules.max_labels) + ")"@),
{
    lemma_first_broken_rule(rules, s, k);
    if k < s.len() {
        lemma_broken_rules(rules, s[k]);
    }
}

/// The points of a batch that are not discarded are those that the rules pass, in
/// the order in which they came.
pub proof fn lemma_admitted_points(rules: label_governance::Rules, s: Seq<MetricPointIngest>)
    ensures
        label_governance::admitted(rules, s) == s.filter(
            |p: MetricPointIngest| label_governance::governed(rules, p.labels@) is Ok,
        ),
    decreases s.len(),
{
    reveal(Seq::filter);
    if s.len() > 0 {
        lemma_admitted_points(rules, s.drop_last());
    } else {
        assert(s.filter(
            |p: MetricPointIngest| label_governance::governed(rules, p.labels@) is Ok,
        ) =~= s);
    }
}

/// A batch is refused only where batches are refused for a point, and then for
/// the first point that the rules do not pass.
pub proof fn lemma_batch_refused(rules: label_governance::Rules, s: Seq<MetricPointIngest>, k: int)
    requires
        0 <= k <= s.len(),
        forall|i: int|
            0 <= i < k ==> label_governance::governed(rules, (#[trigger] s[i]).labels@) is Ok,
        k < s.len() ==> label_governance::governed(rules, s[k].labels@) is Err,
    ensures
        rules.policy != LabelOverflowPolicy::RejectBatch ==> label_governance::refusal(rules, s)
            is None,
        k == s.len() ==> label_governance::refusal(rules, s) is None,
        k < s.len() && rules.policy == LabelOverflowPolicy::RejectBatch ==> (
        label_governance::refusal(rules, s) matches Some(m) && label_governance::governed(
            rules,
            s[k].labels@,
        ) == Err::<(Seq<Label>, Seq<Seq<char>>), Seq<char>>(m)),
    decreases s.len(),
{
    if s.len() > 0 {
        let head = s.drop_last();
        if k < head.len() {
            lemma_batch_refused(rules, head, k);
        } else {
            lemma_batch_refused(rules, head, head.len() as int);
        }
    }
}

/// What is stored of the points that pass is one point for each, in their order,
/// with its name, value and time, and with no label that it did not come with.
pub proof fn lemma_points_stored(
    rules: label_governance::Rules,
    s: Seq<MetricPointIngest>,
    out: Seq<MetricPointIngest>,
    j: int,
)
    requires
        label_governance::all_kept_as(rules, s, out),
        0 <= j < s.len(),
        labels::distinct_keys(s[j].labels@),
    ensures
        out.len() == s.len(),
        out[j].name@ == s[j].name@,
        out[j].value == s[j].value,
        out[j].timestamp == s[j].timestamp,
        out[j].labels@.len() <= rules.max_labels,
        forall|i: int|
            0 <= i < out[j].labels@.len() ==> s[j].labels@.contains(#[trigger] out[j].labels@[i])
                && may_stand(rules, out[j].labels@[i]),
        s[j].labels@.len() <= rules.max_labels && (forall|i: int|
            0 <= i < s[j].labels@.len() ==> may_stand(rules, #[trigger] s[j].labels@[i]))
            ==> out[j].labels@ == s[j].labels@,
{
    let came = s[j].labels@;
    assert(label_governance::kept_as(rules, s[j], out[j]));
    label_governance::lemma_governed_keeps_rules(rules, came);
    assert forall|i: int| 0 <= i < out[j].labels@.len() implies came.contains(
        #[trigger] out[j].labels@[i],
    ) && may_stand(rules, out[j].labels@[i]) by {
        lemma_broken_rules(rules, out[j].labels@[i]);
    }
    if came.len() <= rules.max_labels && forall|i: int|
        0 <= i < came.len() ==> may_stand(rules, #[trigger] came[i]) {
        lemma_first_broken_rule(rules, came, came.len() as int);
        label_governance::lemma_lawful_point_untouched(rules, came);
    }
}

/// A label that is put among others gives its value for its key, in the place
/// where that key stood or as the last; for every other key the labels give what
/// they gave.
pub proof fn lemma_label_put(s: Seq<Label>, l: Label, key: Seq<char>)
    requires
        labels::distinct_keys(s),
    ensures
        labels::label_value(labels::with_label(s, l), l.key@) == Some(l.value@),
        key != l.key@ ==> labels::label_value(labels::with_label(s, l), key)
            == labels::label_value(s, key),
        labels::label_value(s, l.key@) is None ==> labels::with_label(s, l) == s.push(l),
        labels::label_value(s, l.key@) is Some ==> labels::with_label(s, l).len() == s.len()
            && forall|i: int|
            0 <= i < s.len() ==> #[trigger] labels::with_label(s, l)[i] == if s[i].key@ == l.key@ {
                l
            } else {
                s[i]
            },
{
    let t = labels::with_label(s, l);
    if labels::label_value(s, l.key@) is None {
        assert(t.drop_last() == s);
        assert(t.last() == l);
    } else {
        lemma_value_after(s, t, l, l.key@);
        lemma_value_after(s, t, l, key);
    }
}

proof fn lemma_value_after(s: Seq<Label>, t: Seq<Label>, l: Label, key: Seq<char>)
    requires
        t.len() == s.len(),
        forall|i: int|
            0 <= i < s.len() ==> #[trigger] t[i] == if s[i].key@ == l.key@ {
                l
            } else {
                s[i]
            },
    ensures
        labels::label_value(t, key) == if key == l.key@ && labels::label_value(s, key) is Some {
            Some(l.value@)
        } else {
            labels::label_value(s, key)
        },
    decreases s.len(),
{
    if s.len() > 0 {
        assert(t[s.len() - 1] == t.last());
        assert forall|i: int| 0 <= i < s.len() - 1 implies #[trigger] t.drop_last()[i] == if s.drop_last()[i].key@
            == l.key@ {
            l
        } else {
            s.drop_last()[i]
        } by {
            assert(t.drop_last()[i] == t[i]);
        }
        lemma_value_after(s.drop_last(), t.drop_last(), l, key);
    }
}

/// Labels give a value for a key if and only if one of them has that key, and
/// then they give the value of that one.
pub proof fn lemma_label_values(s: Seq<Label>, key: Seq<char>, i: int)
    requires
        labels::distinct_keys(s),
        0 <= i < s.len(),
    ensures
        labels::label_value(s, s[i].key@) == Some(s[i].value@),
        labels::label_value(s, key) is Some <==> exists|j: int|
            0 <= j < s.len() && (#[trigger] s[j]).key@ == key,
{
    labels::lemma_label_value_at(s, i);
    if exists|j: int| 0 <= j < s.len() && (#[trigger] s[j]).key@ == key {
        let j = choose|j: int| 0 <= j < s.len() && (#[trigger] s[j]).key@ == key;
        labels::lemma_label_value_at(s, j);
    } else {
        labels::lemma_label_value_none(s, key);
    }
}

}
