use xtrace::json::{json_contains, Json, Members};
use xtrace::json_read::{from_value, parse_json, to_value};
use xtrace::number::Double;
use xtrace::rows::Latency;
use xtrace::text::{
    byte_length, char_is_space, comes_before, decimal_text, ends_with, insert_text, list_items,
    replace_all, replace_char, split, split_once, starts_with, strip_prefix, strip_suffix,
    to_ascii_lowercase, trim, trim_end_matches,
};
use xtrace::time::{date_text, Timestamp, FIRST_SECOND, LAST_SECOND};

fn texts(items: &[&str]) -> Vec<String> {
    items.iter().map(|s| s.to_string()).collect()
}

fn object(members: Vec<(&str, Json)>) -> Json {
    let mut m = Members::new();
    for (k, v) in members {
        m.insert(k.to_string(), v);
    }
    Json::Object(m)
}

fn whole(n: u64) -> Json {
    Json::Number(serde_json::Number::from(n))
}

fn fraction(x: f64) -> Json {
    Json::Number(serde_json::Number::from_f64(x).unwrap())
}

#[test]
fn spaces_are_those_of_the_language() {
    for n in 0..=0x10ffffu32 {
        if let Some(c) = char::from_u32(n) {
            assert_eq!(char_is_space(c), c.is_whitespace(), "{n:x}");
        }
    }
}

#[test]
fn texts_are_taken_apart_as_the_language_does() {
    for s in ["", " ", " a ", "\u{2003}x y\t", "a", "\u{a0}", "é ", ",a,,b,", "a=b=c", "==", "x//"] {
        assert_eq!(trim(s), s.trim());
        assert_eq!(split(s, ','), s.split(',').map(str::to_string).collect::<Vec<_>>());
        assert_eq!(
            split_once(s, '='),
            s.split_once('=').map(|(a, b)| (a.to_string(), b.to_string()))
        );
        assert_eq!(trim_end_matches(s, '/'), s.trim_end_matches('/'));
        assert_eq!(byte_length(s), s.len());
        for p in ["", "a", " a", "//", "é", "abcdef"] {
            assert_eq!(starts_with(s, p), s.starts_with(p));
            assert_eq!(ends_with(s, p), s.ends_with(p));
            assert_eq!(strip_prefix(s, p), s.strip_prefix(p).map(str::to_string));
            assert_eq!(strip_suffix(s, p), s.strip_suffix(p).map(str::to_string));
        }
    }
    assert_eq!(list_items(" a,, b ,"), texts(&["a", "b"]));
    assert_eq!(to_ascii_lowercase("ÀBc1"), "ÀBc1".to_ascii_lowercase());
}

#[test]
fn texts_are_replaced_as_the_language_does() {
    for (s, p, to) in [
        ("aaa", "aa", "b"),
        ("abab", "ab", "ab!"),
        ("xyz", "q", "r"),
        ("", "a", "b"),
        ("@@@@", "@@@", ""),
        ("éaé", "é", "e"),
    ] {
        assert_eq!(replace_all(s, p, to), s.replace(p, to));
    }
    assert_eq!(replace_char("a'b'", '\'', "''"), "a''b''");
}

#[test]
fn texts_are_ordered_as_the_language_does() {
    let all = ["", "a", "ab", "b", "B", "é", "\u{ffff}", "\u{10000}", "z"];
    for a in all {
        for b in all {
            assert_eq!(comes_before(a, b), a < b);
        }
    }
    let mut v: Vec<String> = Vec::new();
    for t in ["b", "a", "c", "a"] {
        insert_text(&mut v, t);
    }
    assert_eq!(v, texts(&["a", "b", "c"]));
}

#[test]
fn decimals_are_written() {
    for n in [0u64, 9, 10, 101, u64::MAX] {
        assert_eq!(decimal_text(n), n.to_string());
    }
}

#[test]
fn json_texts_have_no_space_and_escape_controls() {
    let tricky = "q\" b\\ n\n r\r t\t \u{8} \u{c} \u{1f} \u{7f} é \u{2028} /";
    let j = object(vec![
        (tricky, Json::Text(tricky.to_string())),
        ("list", Json::Array(vec![Json::Null, Json::Bool(false), fraction(-1.5), whole(7)])),
        ("empty", Json::Array(vec![])),
        ("none", object(vec![])),
    ]);
    let written = "\"q\\\" b\\\\ n\\n r\\r t\\t \\b \\f \\u001f \u{7f} é \u{2028} /\"";
    assert_eq!(
        j.to_text(),
        format!("{{\"empty\":[],\"list\":[null,false,-1.5,7],\"none\":{{}},{written}:{written}}}")
    );
    assert!(parse_json(&j.to_text()).unwrap().equals(&j));
}

#[test]
fn json_values_travel_through_serde() {
    let mut m = serde_json::Map::new();
    m.insert("b".to_string(), serde_json::Value::from(0.1));
    m.insert("a".to_string(), serde_json::Value::Array(vec![serde_json::Value::from("x"), serde_json::Value::Null]));
    let v = serde_json::Value::Object(m);
    let ours = from_value(v.clone());
    assert!(ours.equals(&object(vec![
        ("a", Json::Array(vec![Json::Text("x".to_string()), Json::Null])),
        ("b", fraction(0.1)),
    ])));
    assert_eq!(to_value(&ours), v);
}

#[test]
fn json_is_read_as_serde_does() {
    let texts = [
        "null",
        " true ",
        "[1, -2, 3.50, 1e3, 0.1, -0.0, 18446744073709551615, 1e300]",
        "{\"b\": {\"z\": [], \"y\": {}}, \"a\": \"x\\u00e9\\n\", \"b\": false}",
        "\"\\ud83d\\ude00\"",
    ];
    for s in texts {
        let theirs: serde_json::Value = serde_json::from_str(s).unwrap();
        let ours = parse_json(s).unwrap();
        assert_eq!(ours.to_text(), theirs.to_string());
        assert!(ours.equals(&parse_json(&ours.to_text()).unwrap()));
    }
    for s in ["", "{", "[1,]", "nul", "1 2", "\"\\x\""] {
        let theirs = serde_json::from_str::<serde_json::Value>(s).unwrap_err();
        assert_eq!(parse_json(s).unwrap_err(), theirs.to_string());
    }
}

#[test]
fn every_short_character_is_quoted() {
    for n in 0..0x800u32 {
        let c = char::from_u32(n).unwrap();
        let want = match n {
            8 => "\\b".to_string(),
            9 => "\\t".to_string(),
            10 => "\\n".to_string(),
            12 => "\\f".to_string(),
            13 => "\\r".to_string(),
            34 => "\\\"".to_string(),
            92 => "\\\\".to_string(),
            0..=31 => format!("\\u{n:04x}"),
            _ => c.to_string(),
        };
        assert_eq!(Json::Text(c.to_string()).to_text(), format!("\"{want}\""));
    }
}

#[test]
fn json_values_are_compared_by_content() {
    let a = object(vec![("x", whole(1)), ("y", Json::Null)]);
    assert!(a.equals(&a.copy()));
    assert!(!a.equals(&object(vec![("x", whole(1))])));
    assert!(!Json::Text("1".to_string()).equals(&whole(1)));
    assert!(fraction(0.0).equals(&fraction(-0.0)));
    assert!(!whole(1).equals(&fraction(1.0)));
    assert!(!Json::Array(vec![Json::Null]).equals(&Json::Array(vec![])));
}

#[test]
fn filters_are_held_member_by_member() {
    let target = object(vec![
        ("a", Json::Text("1".to_string())),
        ("b", object(vec![("c", Json::Null), ("d", Json::Null)])),
    ]);
    assert!(json_contains(&target, &object(vec![])));
    assert!(json_contains(&target, &object(vec![("a", Json::Text("1".to_string()))])));
    assert!(!json_contains(&target, &object(vec![("a", Json::Text("2".to_string()))])));
    assert!(!json_contains(&target, &object(vec![("z", Json::Null)])));
    assert!(!json_contains(&target, &object(vec![("b", object(vec![("c", Json::Null)]))])));
    assert!(json_contains(&Json::Null, &Json::Null));
    assert!(!json_contains(&Json::Null, &object(vec![])));
}

#[test]
fn latencies_count_when_finite_and_not_negative() {
    for (x, counts) in [
        (0.0, true),
        (-0.0, true),
        (1.5, true),
        (f64::MAX, true),
        (f64::MIN_POSITIVE, true),
        (-1.0, false),
        (f64::INFINITY, false),
        (f64::NEG_INFINITY, false),
        (f64::NAN, false),
        (-f64::NAN, false),
    ] {
        assert_eq!(Double { bits: x.to_bits() }.is_finite_nonnegative(), counts);
        assert_eq!(x.is_finite() && x >= 0.0, counts);
        assert_eq!(Latency::Reported(Double { bits: x.to_bits() }).counts(), counts);
    }
    assert!(Latency::Millis(0).counts());
    assert!(!Latency::Millis(-1).counts());
}

#[test]
fn instants_are_those_of_chrono() {
    let seconds = [
        FIRST_SECOND - 1,
        FIRST_SECOND,
        -61,
        -1,
        0,
        59,
        60,
        1_700_000_000,
        LAST_SECOND,
        LAST_SECOND + 1,
    ];
    for s in seconds {
        for n in [0u32, 1, 999_999_999, 1_000_000_000, 1_999_999_999, 2_000_000_000] {
            let ours = Timestamp::new(s, n);
            let theirs = chrono::DateTime::<chrono::Utc>::from_timestamp(s, n);
            assert_eq!(ours.is_some(), theirs.is_some(), "{s} {n}");
            if let (Some(a), Some(b)) = (ours, theirs) {
                assert_eq!(a.seconds(), b.timestamp());
                assert_eq!(a.subsec_nanos(), b.timestamp_subsec_nanos());
                assert_eq!(a.to_rfc3339(), b.to_rfc3339());
                assert_eq!(date_text(a.day()), b.date_naive().to_string());
            }
        }
    }
}

#[test]
fn instants_are_shifted_as_chrono_does() {
    let starts = [
        (0, 0),
        (59, 1_500_000_000),
        (-1, 1_000_000_000),
        (86_399, 1_999_999_999),
        (LAST_SECOND, 5),
        (LAST_SECOND, 1_500_000_000),
        (FIRST_SECOND, 0),
        (FIRST_SECOND + 59, 1_999_999_999),
    ];
    for (s, n) in starts {
        let ours = Timestamp::new(s, n).unwrap();
        let theirs = chrono::DateTime::<chrono::Utc>::from_timestamp(s, n).unwrap();
        for d in [0i64, 1, -1, 3600, -86_400, 9_223_372_036_854_775, -9_223_372_036_854_775] {
            let a = ours.plus_seconds(d).map(|t| (t.seconds(), t.subsec_nanos()));
            let b = theirs
                .checked_add_signed(chrono::TimeDelta::seconds(d))
                .map(|t| (t.timestamp(), t.timestamp_subsec_nanos()));
            assert_eq!(a, b, "{s} {n} {d}");
        }
        for (s2, n2) in starts {
            let ours2 = Timestamp::new(s2, n2).unwrap();
            let theirs2 = chrono::DateTime::<chrono::Utc>::from_timestamp(s2, n2).unwrap();
            assert_eq!(ours.millis_until(&ours2), (theirs2 - theirs).num_milliseconds());
            assert_eq!(ours.before(&ours2), theirs < theirs2);
            assert_eq!(ours.same(&ours2), theirs == theirs2);
        }
    }
}

#[test]
fn spans_are_those_of_chrono() {
    let mut instants = Vec::new();
    for s in [-86_401, -61, -1, 0, 59, 60, 119, 86_399, 86_400, 86_459, 172_799] {
        for n in [0u32, 500_000, 500_000_000, 999_999_999, 1_000_000_000, 1_999_999_999] {
            if let Some(t) = Timestamp::new(s, n) {
                instants.push((t, chrono::DateTime::<chrono::Utc>::from_timestamp(s, n).unwrap()));
            }
        }
    }
    for (a, b) in &instants {
        for (c, d) in &instants {
            assert_eq!(a.millis_until(c), (*d - *b).num_milliseconds(), "{b} {d}");
        }
        for delta in [-86_400, -3600, -60, -1, 0, 1, 59, 60, 3600, 86_400] {
            let ours = a.plus_seconds(delta).map(|t| (t.seconds(), t.subsec_nanos()));
            let theirs = b
                .checked_add_signed(chrono::TimeDelta::seconds(delta))
                .map(|t| (t.timestamp(), t.timestamp_subsec_nanos()));
            assert_eq!(ours, theirs, "{b} {delta}");
        }
    }
}

#[test]
fn spans_follow_the_stated_rule() {
    let a = Timestamp::new(59, 1_250_000_000).unwrap();
    let b = Timestamp::new(60, 0).unwrap();
    assert_eq!(a.millis_until(&b), 750);
    assert_eq!(b.millis_until(&a), -750);
    let c = Timestamp::new(59, 250_000_000).unwrap();
    assert_eq!(c.millis_until(&a), 1000);
}

#[test]
fn shifts_follow_the_stated_rule() {
    let plain = Timestamp::new(100, 7).unwrap();
    let later = plain.plus_seconds(50).unwrap();
    assert_eq!((later.seconds(), later.subsec_nanos()), (150, 7));
    let leap = Timestamp::new(59, 1_500_000_000).unwrap();
    let ahead = leap.plus_seconds(1).unwrap();
    assert_eq!((ahead.seconds(), ahead.subsec_nanos()), (60, 500_000_000));
    let back = leap.plus_seconds(-1).unwrap();
    assert_eq!((back.seconds(), back.subsec_nanos()), (59, 500_000_000));
    assert!(Timestamp::new(LAST_SECOND, 0).unwrap().plus_seconds(1).is_none());
}

#[test]
fn steps_start_at_multiples() {
    for (s, step, start) in [(61, 60, 60), (59, 60, 0), (-1, 60, 0), (-61, 60, -60), (0, 1, 0)] {
        let t = Timestamp::new(s, 5).unwrap().bucket(step);
        assert_eq!((t.seconds(), t.subsec_nanos()), (start, 0));
    }
}

#[test]
fn the_clock_moves_on() {
    let a = Timestamp::now();
    assert!(a.seconds() > 1_600_000_000);
    assert!(a.to_rfc3339().ends_with("+00:00"));
}
