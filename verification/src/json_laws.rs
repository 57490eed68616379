//! Laws of JSON values: how they are written and when they are equal; and of the
//! numbers that count.

use vstd::prelude::*;

use crate::json;
use crate::metrics_laws;
use crate::number;
use crate::number::Double;
use crate::retention;
use crate::retention::RetentionStats;
use crate::rows;
use crate::rows::Latency;
use crate::text;

verus! {

/// The sixteen digits are `0` to `9` and then `a` to `f`.
pub proof fn lemma_hex_digits(d: nat)
    requires
        d < 16,
    ensures
        d < 10 ==> json::hex_digit(d) as int == 48 + d,
        d >= 10 ==> json::hex_digit(d) as int == 97 + (d - 10),
{
}

/// Inside a JSON string a quote and a backslash have a backslash in front, the
/// control characters that have a letter are written with it, any other control
/// character as its number in four digits, and everything else as itself.
pub proof fn lemma_one_escaped(c: char)
    ensures
        json::escaped(Seq::empty()) == Seq::<char>::empty(),
        json::escaped(seq!['"']) == seq!['\\', '"'],
        json::escaped(seq!['\\']) == seq!['\\', '\\'],
        json::escaped(seq!['\n']) == seq!['\\', 'n'],
        json::escaped(seq!['\r']) == seq!['\\', 'r'],
        json::escaped(seq!['\t']) == seq!['\\', 't'],
        c as int == 8 ==> json::escaped(seq![c]) == seq!['\\', 'b'],
        c as int == 12 ==> json::escaped(seq![c]) == seq!['\\', 'f'],
        c as int >= 32 && c != '"' && c != '\\' ==> json::escaped(seq![c]) == seq![c],
        (c as int) < 8 ==> json::escaped(seq![c]) == seq![
            '\\',
            'u',
            '0',
            '0',
            '0',
            (48 + c as int) as char,
        ],
        c as int == 11 ==> json::escaped(seq![c]) == seq!['\\', 'u', '0', '0', '0', 'b'],
        14 <= c as int <= 15 ==> json::escaped(seq![c]) == seq![
            '\\',
            'u',
            '0',
            '0',
            '0',
            (87 + c as int) as char,
        ],
        16 <= c as int <= 25 ==> json::escaped(seq![c]) == seq![
            '\\',
            'u',
            '0',
            '0',
            '1',
            (48 + (c as int - 16)) as char,
        ],
        26 <= c as int <= 31 ==> json::escaped(seq![c]) == seq![
            '\\',
            'u',
            '0',
            '0',
            '1',
            (87 + (c as int - 16)) as char,
        ],
{
    lemma_single(c);
    lemma_single('"');
    lemma_single('\\');
    lemma_single('\n');
    lemma_single('\r');
    lemma_single('\t');
}

proof fn lemma_single(c: char)
    ensures
        json::escaped(seq![c]) == json::escaped_char(c),
{
    assert(seq![c].drop_last() == Seq::<char>::empty());
    assert(json::escaped(Seq::<char>::empty()) == Seq::<char>::empty());
    assert(Seq::<char>::empty() + json::escaped_char(c) == json::escaped_char(c));
}

/// A text is written character by character.
pub proof fn lemma_escaped_joined(a: Seq<char>, b: Seq<char>)
    ensures
        json::escaped(a + b) == json::escaped(a) + json::escaped(b),
    decreases b.len(),
{
    if b.len() == 0 {
        assert(a + b == a);
        assert(json::escaped(b) == Seq::<char>::empty());
        assert(json::escaped(a) + Seq::<char>::empty() == json::escaped(a));
    } else {
        lemma_escaped_joined(a, b.drop_last());
        assert((a + b).drop_last() == a + b.drop_last());
        assert((a + b).last() == b.last());
        let e = json::escaped_char(b.last());
        assert((json::escaped(a) + json::escaped(b.drop_last())) + e == json::escaped(a) + (
        json::escaped(b.drop_last()) + e));
    }
}

/// The words for what has no parts; a text stands between quotes, a list between
/// square brackets, an object between braces.
pub proof fn lemma_json_text(
    t: Seq<char>,
    a: Seq<json::JsonModel>,
    o: Seq<(Seq<char>, json::JsonModel)>,
)
    ensures
        json::json_text(json::JsonModel::Null) == "null"@,
        json::json_text(json::JsonModel::Bool(true)) == "true"@,
        json::json_text(json::JsonModel::Bool(false)) == "false"@,
        json::json_text(json::JsonModel::Number(t)) == t,
        json::json_text(json::JsonModel::Text(t)) == "\""@ + json::escaped(t) + "\""@,
        json::json_text(json::JsonModel::Array(a)) == "["@ + json::items_text(a) + "]"@,
        json::json_text(json::JsonModel::Object(o)) == "{"@ + json::members_text(o) + "}"@,
{
    reveal_strlit("\"");
    reveal_strlit("[");
    reveal_strlit("]");
    reveal_strlit("{");
    reveal_strlit("}");
    assert("\""@ == seq!['"']);
    assert("["@ == seq!['[']);
    assert("]"@ == seq![']']);
    assert("{"@ == seq!['{']);
    assert("}"@ == seq!['}']);
}

/// The values of a list are written one after the other with a comma between each
/// two.
pub proof fn lemma_items_joined(a: Seq<json::JsonModel>, b: Seq<json::JsonModel>, x: json::JsonModel)
    ensures
        json::items_text(Seq::empty()) == Seq::<char>::empty(),
        json::items_text(seq![x]) == json::json_text(x),
        a.len() > 0 && b.len() > 0 ==> json::items_text(a + b) == json::items_text(a) + ","@
            + json::items_text(b),
    decreases b.len(),
{
    reveal_strlit(",");
    assert(","@ == seq![',']);
    assert(seq![x][0] == x);
    if a.len() > 0 && b.len() > 0 {
        let s = a + b;
        let head = s.subrange(0, s.len() - 1);
        let rest = b.subrange(0, b.len() - 1);
        assert(s[s.len() - 1] == b[b.len() - 1]);
        assert(head == a + rest);
        if b.len() == 1 {
            assert(head == a);
        } else {
            lemma_items_joined(a, rest, x);
            assert(json::items_text(s) == json::items_text(a) + ","@ + (json::items_text(rest)
                + seq![','] + json::json_text(b[b.len() - 1])));
        }
    }
}

/// The members of an object are written one after the other with a comma between
/// each two, each as its key between quotes, a colon and its value.
pub proof fn lemma_members_joined(
    a: Seq<(Seq<char>, json::JsonModel)>,
    b: Seq<(Seq<char>, json::JsonModel)>,
    k: Seq<char>,
    x: json::JsonModel,
)
    ensures
        json::members_text(Seq::empty()) == Seq::<char>::empty(),
        json::members_text(seq![(k, x)]) == "\""@ + json::escaped(k) + "\":"@ + json::json_text(x),
        a.len() > 0 && b.len() > 0 ==> json::members_text(a + b) == json::members_text(a) + ","@
            + json::members_text(b),
    decreases b.len(),
{
    reveal_strlit(",");
    reveal_strlit("\"");
    reveal_strlit("\":");
    assert(","@ == seq![',']);
    assert("\""@ == seq!['"']);
    assert(seq![(k, x)][0] == (k, x));
    assert(json::quoted(k) + seq![':'] + json::json_text(x) == "\""@ + json::escaped(k) + "\":"@
        + json::json_text(x));
    if a.len() > 0 && b.len() > 0 {
        let s = a + b;
        let head = s.subrange(0, s.len() - 1);
        let rest = b.subrange(0, b.len() - 1);
        let last = b[b.len() - 1];
        assert(s[s.len() - 1] == last);
        assert(head == a + rest);
        let end = json::quoted(last.0) + seq![':'] + json::json_text(last.1);
        if b.len() == 1 {
            assert(head == a);
            assert(json::members_text(s) == json::members_text(a) + ","@ + end);
            assert(json::members_text(b) == end);
        } else {
            lemma_members_joined(a, rest, k, x);
            assert(json::members_text(b) == json::members_text(rest) + ","@ + end);
            assert(json::members_text(s) == json::members_text(a) + ","@ + (json::members_text(
                rest,
            ) + ","@ + end));
        }
    }
}

/// Lists are equal if and only if they are as long and equal at every place;
/// objects, if and only if they have the same keys with equal values.
pub proof fn lemma_equal_parts(
    a: Seq<json::JsonModel>,
    b: Seq<json::JsonModel>,
    x: Seq<(Seq<char>, json::JsonModel)>,
    y: Seq<(Seq<char>, json::JsonModel)>,
)
    ensures
        json::json_eq(json::JsonModel::Array(a), json::JsonModel::Array(b)) <==> a.len() == b.len()
            && forall|i: int| 0 <= i < a.len() ==> json::json_eq(#[trigger] a[i], b[i]),
        json::json_eq(json::JsonModel::Object(x), json::JsonModel::Object(y)) <==> x.len()
            == y.len() && forall|i: int|
            0 <= i < x.len() ==> (#[trigger] x[i]).0 == y[i].0 && json::json_eq(x[i].1, y[i].1),
{
}

/// Numbers that are written alike are equal, and so are the two zeros; no others
/// are.
pub proof fn lemma_equal_numbers(s: Seq<char>, t: Seq<char>)
    ensures
        json::json_eq(json::JsonModel::Number(s), json::JsonModel::Number(t)) <==> {
            ||| s == t
            ||| s == "0.0"@ && t == "-0.0"@
            ||| s == "-0.0"@ && t == "0.0"@
        },
{
}

/// The bits of a number that counts: its sign is plus and its exponent is not the
/// one of the infinite, or it is the zero with a minus sign.
pub proof fn lemma_finite_bits(d: Double)
    ensures
        number::finite_nonnegative(d) <==> {
            ||| d.bits >> 63 == 0 && (d.bits >> 52) & 0x7ff != 0x7ff
            ||| d.bits == 1u64 << 63
        },
{
    let b = d.bits;
    assert(b < 0x7ff0_0000_0000_0000u64 || b == 0x8000_0000_0000_0000u64 <==> (b >> 63 == 0 && (b
        >> 52) & 0x7ff != 0x7ff) || b == 1u64 << 63) by (bit_vector);
}

/// A latency that was worked out from two instants counts unless the later of
/// them comes first; one that the client reports counts where it is a finite
/// number that is not below zero.
pub proof fn lemma_latencies_that_count(ms: i64, d: Double)
    ensures
        rows::latency_counts(Latency::Millis(ms)) <==> ms >= 0,
        rows::latency_counts(Latency::Reported(d)) <==> number::finite_nonnegative(d),
{
}

/// What retention has done is told under eight names, each count under its own.
pub proof fn lemma_retention_told(s: RetentionStats)
    ensures
        ({
            let m = retention::stats_members(s);
            &&& json::member_value(m, "runs"@) == Some(told(s.runs))
            &&& json::member_value(m, "metrics_deleted"@) == Some(told(s.metrics_deleted))
            &&& json::member_value(m, "traces_deleted"@) == Some(told(s.traces_deleted))
            &&& json::member_value(m, "observations_deleted"@) == Some(told(s.observations_deleted))
            &&& json::member_value(m, "metrics_downsampled"@) == Some(told(s.metrics_downsampled))
            &&& json::member_value(m, "memory_metrics_evicted"@) == Some(
                told(s.memory_metrics_evicted),
            )
            &&& json::member_value(m, "memory_traces_evicted"@) == Some(
                told(s.memory_traces_evicted),
            )
            &&& s.last_error is None ==> json::member_value(m, "last_error"@) == Some(
                json::JsonModel::Null,
            )
            &&& s.last_error matches Some(e) ==> json::member_value(m, "last_error"@) == Some(
                json::JsonModel::Text(e@),
            )
        }),
{
    let names = seq![
        "runs"@,
        "metrics_deleted"@,
        "traces_deleted"@,
        "observations_deleted"@,
        "metrics_downsampled"@,
        "memory_metrics_evicted"@,
        "memory_traces_evicted"@,
        "last_error"@,
    ];
    lemma_names_differ();
    let m0 = Seq::<(Seq<char>, json::JsonModel)>::empty();
    let m1 = json::with_member(m0, names[0], retention::count_model(s.runs));
    let m2 = json::with_member(m1, names[1], retention::count_model(s.metrics_deleted));
    let m3 = json::with_member(m2, names[2], retention::count_model(s.traces_deleted));
    let m4 = json::with_member(m3, names[3], retention::count_model(s.observations_deleted));
    let m5 = json::with_member(m4, names[4], retention::count_model(s.metrics_downsampled));
    let m6 = json::with_member(m5, names[5], retention::count_model(s.memory_metrics_evicted));
    let m7 = json::with_member(m6, names[6], retention::count_model(s.memory_traces_evicted));
    let e = match s.last_error {
        Some(e) => json::JsonModel::Text(e@),
        None => json::JsonModel::Null,
    };
    lemma_put_one(m0, names, 0, retention::count_model(s.runs));
    lemma_put_one(m1, names, 1, retention::count_model(s.metrics_deleted));
    lemma_put_one(m2, names, 2, retention::count_model(s.traces_deleted));
    lemma_put_one(m3, names, 3, retention::count_model(s.observations_deleted));
    lemma_put_one(m4, names, 4, retention::count_model(s.metrics_downsampled));
    lemma_put_one(m5, names, 5, retention::count_model(s.memory_metrics_evicted));
    lemma_put_one(m6, names, 6, retention::count_model(s.memory_traces_evicted));
    lemma_put_one(m7, names, 7, e);
    assert(names[0] == "runs"@ && names[1] == "metrics_deleted"@ && names[2] == "traces_deleted"@
        && names[3] == "observations_deleted"@ && names[4] == "metrics_downsampled"@ && names[5]
        == "memory_metrics_evicted"@ && names[6] == "memory_traces_evicted"@ && names[7]
        == "last_error"@);
}

/// A count as a JSON number: in decimal.
pub open spec fn told(n: u64) -> json::JsonModel {
    json::JsonModel::Number(text::decimal(n as nat))
}

proof fn lemma_put_one(
    m: Seq<(Seq<char>, json::JsonModel)>,
    names: Seq<Seq<char>>,
    k: int,
    v: json::JsonModel,
)
    requires
        json::keys_ascend(m),
        0 <= k < names.len(),
        names.no_duplicates(),
    ensures
        json::keys_ascend(json::with_member(m, names[k], v)),
        json::member_value(json::with_member(m, names[k], v), names[k]) == Some(v),
        forall|i: int|
            0 <= i < names.len() && i != k ==> json::member_value(
                json::with_member(m, names[k], v),
                #[trigger] names[i],
            ) == json::member_value(m, names[i]),
{
    metrics_laws::lemma_member_put(m, names[k], v, names[k]);
    assert forall|i: int| 0 <= i < names.len() && i != k implies json::member_value(
        json::with_member(m, names[k], v),
        #[trigger] names[i],
    ) == json::member_value(m, names[i]) by {
        metrics_laws::lemma_member_put(m, names[k], v, names[i]);
    }
}

proof fn lemma_names_differ()
    ensures
        seq![
            "runs"@,
            "metrics_deleted"@,
            "traces_deleted"@,
            "observations_deleted"@,
            "metrics_downsampled"@,
            "memory_metrics_evicted"@,
            "memory_traces_evicted"@,
            "last_error"@,
        ].no_duplicates(),
{
    reveal_strlit("runs");
    reveal_strlit("metrics_deleted");
    reveal_strlit("traces_deleted");
    reveal_strlit("observations_deleted");
    reveal_strlit("metrics_downsampled");
    reveal_strlit("memory_metrics_evicted");
    reveal_strlit("memory_traces_evicted");
    reveal_strlit("last_error");
    assert("runs"@.len() == 4);
    assert("metrics_deleted"@.len() == 15);
    assert("traces_deleted"@.len() == 14);
    assert("observations_deleted"@.len() == 20);
    assert("metrics_downsampled"@.len() == 19);
    assert("memory_metrics_evicted"@.len() == 22);
    assert("memory_traces_evicted"@.len() == 21);
    assert("last_error"@.len() == 10);
}

}
