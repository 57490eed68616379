//! The labels of a metric point.

use vstd::prelude::*;

use crate::order::Ranked;
use crate::order;
use crate::text;
use crate::text::{comes_before, same};

verus! {

/// A label: a key and the value it has.
#[derive(Debug)]
pub struct Label {
    pub key: String,
    pub value: String,
}

/// Labels are ordered by their keys.
impl Ranked for Label {
    open spec fn before(&self, other: &Label) -> bool {
        text::text_lt(self.key@, other.key@)
    }

    proof fn order_laws(a: &Label, b: &Label, c: &Label) {
        text::lemma_text_lt_total(a.key@, b.key@);
        text::lemma_text_lt_total(b.key@, c.key@);
        if a.before(c) && !a.before(b) && !b.before(c) {
            if a.key@ == b.key@ || b.key@ == c.key@ {
            } else {
                text::lemma_text_lt_transitive(c.key@, b.key@, a.key@);
                text::lemma_text_lt_total(a.key@, c.key@);
            }
        }
    }

    fn stands_before(&self, other: &Label) -> (r: bool) {
        comes_before(self.key.as_str(), other.key.as_str())
    }
}

/// Whether no two labels have one key.
pub open spec fn distinct_keys(s: Seq<Label>) -> bool {
    forall|i: int, j: int|
        0 <= i < j < s.len() ==> (#[trigger] s[i]).key@ != (#[trigger] s[j]).key@
}

/// What the labels give for a key, if anything.
pub open spec fn label_value(s: Seq<Label>, key: Seq<char>) -> Option<Seq<char>>
    decreases s.len(),
{
    if s.len() == 0 {
        None
    } else if s.last().key@ == key {
        Some(s.last().value@)
    } else {
        label_value(s.drop_last(), key)
    }
}

/// The labels `s` with `l`: in the place of the label with its key, or as the
/// last one.
pub open spec fn with_label(s: Seq<Label>, l: Label) -> Seq<Label> {
    if label_value(s, l.key@) is None {
        s.push(l)
    } else {
        s.map_values(
            |x: Label|
                if x.key@ == l.key@ {
                    l
                } else {
                    x
                },
        )
    }
}

/// The labels of a point: no key occurs twice.
#[derive(Debug)]
pub struct Labels {
    pairs: Vec<Label>,
}

impl View for Labels {
    type V = Seq<Label>;

    /// The labels in the order in which they are walked.
    closed spec fn view(&self) -> Seq<Label> {
        self.pairs@
    }
}

/// What a key's label is, where a list has it at place `i`.
pub proof fn lemma_label_value_at(s: Seq<Label>, i: int)
    requires
        distinct_keys(s),
        0 <= i < s.len(),
    ensures
        label_value(s, s[i].key@) == Some(s[i].value@),
    decreases s.len(),
{
    if i < s.len() - 1 {
        assert(s[i].key@ != s[s.len() - 1].key@);
        assert(s.drop_last()[i] == s[i]);
        lemma_label_value_at(s.drop_last(), i);
    }
}

/// A key that no label has gives nothing.
pub proof fn lemma_label_value_none(s: Seq<Label>, key: Seq<char>)
    requires
        forall|i: int| 0 <= i < s.len() ==> (#[trigger] s[i]).key@ != key,
    ensures
        label_value(s, key) is None,
    decreases s.len(),
{
    if s.len() > 0 {
        assert(s[s.len() - 1].key@ != key);
        lemma_label_value_none(s.drop_last(), key);
    }
}

impl Labels {
    #[verifier::type_invariant]
    spec fn keys_differ(self) -> bool {
        distinct_keys(self.pairs@)
    }

    /// No labels.
    pub fn new() -> (r: Labels)
        ensures
            r@ == Seq::<Label>::empty(),
    {
        Labels { pairs: Vec::new() }
    }

    /// The labels of a list in which no two have one key.
    pub(crate) fn from_distinct(pairs: Vec<Label>) -> (r: Labels)
        requires
            distinct_keys(pairs@),
        ensures
            r@ == pairs@,
    {
        Labels { pairs }
    }

    /// The labels as a list.
    pub fn into_pairs(self) -> (r: Vec<Label>)
        ensures
            r@ == self@,
            distinct_keys(r@),
    {
        proof {
            use_type_invariant(&self);
        }
        self.pairs
    }

    /// How many labels there are.
    pub fn len(&self) -> (r: usize)
        ensures
            r == self@.len(),
    {
        self.pairs.len()
    }

    /// The label at place `i`.
    pub fn at(&self, i: usize) -> (r: &Label)
        requires
            i < self@.len(),
        ensures
            *r == self@[i as int],
    {
        &self.pairs[i]
    }

    /// What the labels give for `key`, if anything.
    pub fn get(&self, key: &str) -> (r: Option<&String>)
        ensures
            match r {
                Some(v) => label_value(self@, key@) == Some(v@),
                None => label_value(self@, key@) is None,
            },
    {
        proof {
            use_type_invariant(self);
        }
        let mut i: usize = 0;
        while i < self.pairs.len()
            invariant
                0 <= i <= self.pairs.len(),
                distinct_keys(self.pairs@),
                forall|j: int| 0 <= j < i ==> (#[trigger] self.pairs@[j]).key@ != key@,
            decreases self.pairs.len() - i,
        {
            if same(self.pairs[i].key.as_str(), key) {
                proof {
                    lemma_label_value_at(self.pairs@, i as int);
                }
                return Some(&self.pairs[i].value);
            }
            i += 1;
        }
        proof {
            lemma_label_value_none(self.pairs@, key@);
        }
        None
    }

    /// Gives `key` the value `value`: in the place of the one it had, or as
    /// the last label.
    pub fn insert(&mut self, key: String, value: String)
        ensures
            final(self)@ == with_label(old(self)@, (Label { key, value })),
            label_value(final(self)@, key@) == Some(value@),
            forall|k: Seq<char>|
                k != key@ ==> label_value(final(self)@, k) == #[trigger] label_value(old(self)@, k),
    {
        proof {
            use_type_invariant(&*self);
        }
        let ghost before = self.pairs@;
        let mut i: usize = 0;
        while i < self.pairs.len()
            invariant
                0 <= i <= self.pairs.len(),
                self.pairs@ == before,
                before == old(self)@,
                distinct_keys(before),
                forall|j: int| 0 <= j < i ==> (#[trigger] before[j]).key@ != key@,
            decreases self.pairs.len() - i,
        {
            if same(self.pairs[i].key.as_str(), key.as_str()) {
                let label = Label { key, value };
                let mut pairs: Vec<Label> = Vec::new();
                std::mem::swap(&mut pairs, &mut self.pairs);
                pairs.set(i, label);
                self.pairs = pairs;
                proof {
                    let after = before.update(i as int, label);
                    assert(self.pairs@ == after);
                    assert(after == with_label(before, label)) by {
                        lemma_label_value_at(before, i as int);
                    }
                    lemma_label_value_at(after, i as int);
                    lemma_label_value_at(before, i as int);
                    assert forall|k: Seq<char>| k != key@ implies label_value(after, k)
                        == #[trigger] label_value(before, k) by {
                        lemma_value_of_others(before, after, i as int, k);
                    }
                }
                return ;
            }
            i += 1;
        }
        proof {
            lemma_label_value_none(before, key@);
        }
        let label = Label { key, value };
        let mut pairs: Vec<Label> = Vec::new();
        std::mem::swap(&mut pairs, &mut self.pairs);
        pairs.push(label);
        self.pairs = pairs;
        proof {
            let after = before.push(label);
            assert(self.pairs@ == after);
            assert(after.drop_last() == before);
        }
    }
}

/// Sorting keeps the keys apart, and every label of the result is one of `s`.
pub proof fn lemma_sorted_distinct(s: Seq<Label>)
    requires
        distinct_keys(s),
    ensures
        distinct_keys(order::sorted(s)),
        forall|i: int|
            0 <= i < order::sorted(s).len() ==> s.contains(#[trigger] order::sorted(s)[i]),
    decreases s.len(),
{
    if s.len() > 0 {
        let head = s.drop_last();
        let x = s.last();
        lemma_sorted_distinct(head);
        let t = order::sorted(head);
        let k = order::lemma_inserted_place(t, x);
        let r = t.insert(k, x);
        assert(order::sorted(s) == r);
        assert forall|i: int| 0 <= i < t.len() implies (#[trigger] t[i]).key@ != x.key@
            && s.contains(t[i]) by {
            assert(head.contains(t[i]));
            let j = choose|j: int| 0 <= j < head.len() && head[j] == t[i];
            assert(s[j] == t[i]);
        }
        assert forall|i: int| 0 <= i < r.len() implies s.contains(#[trigger] r[i]) by {
            if i < k {
                assert(r[i] == t[i]);
            } else if i > k {
                assert(r[i] == t[i - 1]);
            } else {
                assert(s[s.len() - 1] == x);
            }
        }
        assert forall|i: int, j: int| 0 <= i < j < r.len() implies (#[trigger] r[i]).key@ != (
        #[trigger] r[j]).key@ by {
            let i0 = if i < k {
                i
            } else {
                i - 1
            };
            let j0 = if j < k {
                j
            } else {
                j - 1
            };
            if i != k {
                assert(r[i] == t[i0]);
            }
            if j != k {
                assert(r[j] == t[j0]);
            }
        }
    }
}

/// Keys other than that of the label at place `i` give what they gave.
proof fn lemma_value_of_others(a: Seq<Label>, b: Seq<Label>, i: int, k: Seq<char>)
    requires
        0 <= i < a.len(),
        b.len() == a.len(),
        forall|j: int| 0 <= j < a.len() && j != i ==> b[j] == a[j],
        a[i].key@ == b[i].key@,
        a[i].key@ != k,
    ensures
        label_value(a, k) == label_value(b, k),
    decreases a.len(),
{
    if i < a.len() - 1 {
        assert(b.last() == a.last());
        lemma_value_of_others(a.drop_last(), b.drop_last(), i, k);
    } else {
        assert(a.drop_last() == b.drop_last());
    }
}

/// Lists of labels with distinct keys that hold the same labels are as long.
pub proof fn lemma_same_labels_same_len(a: Seq<Label>, b: Seq<Label>)
    requires
        distinct_keys(a),
        distinct_keys(b),
        forall|l: Label| #[trigger] a.contains(l) == #[trigger] b.contains(l),
    ensures
        a.len() == b.len(),
{
    assert(a.no_duplicates()) by {
        assert forall|i: int, j: int| 0 <= i < a.len() && 0 <= j < a.len() && i != j implies a[i]
            != a[j] by {
            if i < j {
                assert(a[i].key@ != a[j].key@);
            } else {
                assert(a[j].key@ != a[i].key@);
            }
        }
    }
    assert(b.no_duplicates()) by {
        assert forall|i: int, j: int| 0 <= i < b.len() && 0 <= j < b.len() && i != j implies b[i]
            != b[j] by {
            if i < j {
                assert(b[i].key@ != b[j].key@);
            } else {
                assert(b[j].key@ != b[i].key@);
            }
        }
    }
    a.unique_seq_to_set();
    b.unique_seq_to_set();
    assert forall|l: Label| a.to_set().contains(l) == b.to_set().contains(l) by {
        assert(a.contains(l) == b.contains(l));
    }
    assert(a.to_set() =~= b.to_set());
}

/// Labels with distinct keys stand in one order only: it does not matter how
/// they stood before they were sorted.
pub proof fn lemma_one_order(a: Seq<Label>, b: Seq<Label>)
    requires
        distinct_keys(a),
        distinct_keys(b),
        forall|l: Label| #[trigger] a.contains(l) == #[trigger] b.contains(l),
    ensures
        order::sorted(a) == order::sorted(b),
{
    let x = order::sorted(a);
    let y = order::sorted(b);
    lemma_sorted_ascends(a);
    lemma_sorted_ascends(b);
    lemma_sorted_members(a);
    lemma_sorted_members(b);
    let ka = x.map_values(|l: Label| l.key@);
    let kb = y.map_values(|l: Label| l.key@);
    assert forall|l: Label| #[trigger] x.contains(l) == #[trigger] y.contains(l) by {
        assert(a.contains(l) == b.contains(l));
    }
    assert forall|t: Seq<char>| #[trigger] ka.contains(t) == #[trigger] kb.contains(t) by {
        if ka.contains(t) {
            let i = choose|i: int| 0 <= i < ka.len() && ka[i] == t;
            assert(x.contains(x[i]));
            assert(y.contains(x[i]));
            let j = choose|j: int| 0 <= j < y.len() && y[j] == x[i];
            assert(kb[j] == t);
        }
        if kb.contains(t) {
            let i = choose|i: int| 0 <= i < kb.len() && kb[i] == t;
            assert(y.contains(y[i]));
            assert(x.contains(y[i]));
            let j = choose|j: int| 0 <= j < x.len() && x[j] == y[i];
            assert(ka[j] == t);
        }
    }
    text::lemma_ascending_unique(ka, kb);
    assert forall|i: int| 0 <= i < x.len() implies x[i] == y[i] by {
        assert(x.contains(x[i]));
        assert(y.contains(x[i]));
        let j = choose|j: int| 0 <= j < y.len() && y[j] == x[i];
        assert(ka[i] == kb[i]);
        assert(ka[j] == kb[j]);
        assert(ka[i] == ka[j]);
        if i < j {
            assert(text::text_lt(ka[i], ka[j]));
            text::lemma_text_lt_total(ka[i], ka[j]);
        }
        if j < i {
            assert(text::text_lt(ka[j], ka[i]));
            text::lemma_text_lt_total(ka[j], ka[i]);
        }
    }
    assert(x =~= y);
}

/// The keys of sorted labels ascend, where they are distinct.
proof fn lemma_sorted_ascends(s: Seq<Label>)
    requires
        distinct_keys(s),
    ensures
        text::ascending(order::sorted(s).map_values(|l: Label| l.key@)),
{
    let x = order::sorted(s);
    let k = x.map_values(|l: Label| l.key@);
    order::lemma_sorted_in_order(s);
    lemma_sorted_distinct(s);
    assert forall|i: int, j: int| 0 <= i < j < k.len() implies text::text_lt(
        #[trigger] k[i],
        #[trigger] k[j],
    ) by {
        assert(!x[j].before(&x[i]));
        assert(x[i].key@ != x[j].key@);
        text::lemma_text_lt_total(x[i].key@, x[j].key@);
    }
}

/// Sorting keeps each label and adds none.
proof fn lemma_sorted_members(s: Seq<Label>)
    ensures
        forall|l: Label| #[trigger] order::sorted(s).contains(l) == s.contains(l),
{
    broadcast use vstd::seq_lib::group_to_multiset_ensures;

    order::lemma_sorted_same_items(s);
    assert forall|l: Label| #[trigger] order::sorted(s).contains(l) == s.contains(l) by {
        assert(order::sorted(s).to_multiset().count(l) == s.to_multiset().count(l));
    }
}

}
