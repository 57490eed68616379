//! Laws of text: trimming, cutting, comparing, replacing and writing numbers.

use vstd::prelude::*;

use crate::text;

verus! {

/// Whether all of `s` is white space.
pub open spec fn blank(s: Seq<char>) -> bool {
    forall|i: int| 0 <= i < s.len() ==> text::is_space(#[trigger] s[i])
}

/// What is white space: the tab and the line ends, the space, and the spaces and
/// separators beyond ASCII; letters, digits and signs are not.
pub proof fn lemma_spaces(c: char)
    ensures
        text::is_space('\t'),
        text::is_space('\n'),
        text::is_space('\r'),
        text::is_space(' '),
        0x21 <= c as int <= 0x7e ==> !text::is_space(c),
        (c as int) < 0x80 ==> (text::is_space(c) <==> c as int == 32 || 9 <= c as int <= 13),
        (c as int) >= 0x80 ==> (text::is_space(c) <==> {
            ||| c as int == 0x85
            ||| c as int == 0xa0
            ||| c as int == 0x1680
            ||| 0x2000 <= c as int <= 0x200a
            ||| 0x2028 <= c as int <= 0x2029
            ||| c as int == 0x202f
            ||| c as int == 0x205f
            ||| c as int == 0x3000
        }),
{
}

proof fn lemma_start_parts(s: Seq<char>) -> (k: int)
    ensures
        0 <= k <= s.len(),
        text::trim_start(s) == s.skip(k),
        blank(s.take(k)),
        k < s.len() ==> !text::is_space(s[k]),
    decreases s.len(),
{
    if s.len() > 0 && text::is_space(s[0]) {
        let k = lemma_start_parts(s.drop_first());
        assert(s.drop_first().skip(k) == s.skip(k + 1));
        assert forall|i: int| 0 <= i < k + 1 implies text::is_space(
            #[trigger] s.take(k + 1)[i],
        ) by {
            if i > 0 {
                assert(text::is_space(s.drop_first().take(k)[i - 1]));
            }
        }
        k + 1
    } else {
        assert(s.skip(0) == s);
        0
    }
}

proof fn lemma_end_parts(s: Seq<char>) -> (k: int)
    ensures
        0 <= k <= s.len(),
        text::trim_end(s) == s.take(k),
        blank(s.skip(k)),
        k > 0 ==> !text::is_space(s[k - 1]),
    decreases s.len(),
{
    if s.len() > 0 && text::is_space(s.last()) {
        let k = lemma_end_parts(s.drop_last());
        assert(s.drop_last().take(k) == s.take(k));
        assert forall|i: int| 0 <= i < s.len() - k implies text::is_space(
            #[trigger] s.skip(k)[i],
        ) by {
            if i < s.len() - k - 1 {
                assert(text::is_space(s.drop_last().skip(k)[i]));
            }
        }
        k
    } else {
        assert(s.take(s.len() as int) == s);
        s.len() as int
    }
}

/// What is trimmed away is white space at the two ends, and all of it.
pub proof fn lemma_trimmed_parts(s: Seq<char>) -> (parts: (Seq<char>, Seq<char>))
    ensures
        s == parts.0 + text::trimmed(s) + parts.1,
        blank(parts.0),
        blank(parts.1),
        text::trimmed(s).len() > 0 ==> !text::is_space(text::trimmed(s)[0]) && !text::is_space(
            text::trimmed(s).last(),
        ),
{
    let k = lemma_start_parts(s);
    let a = s.skip(k);
    let m = lemma_end_parts(a);
    assert(s == s.take(k) + a.take(m) + a.skip(m));
    (s.take(k), a.skip(m))
}

/// A text that has white space put round it trims to what it trimmed to.
pub proof fn lemma_blanks_around(a: Seq<char>, s: Seq<char>, b: Seq<char>)
    requires
        blank(a),
        blank(b),
    ensures
        text::trimmed(a + s + b) == text::trimmed(s),
    decreases a.len() + b.len(),
{
    let whole = a + s + b;
    if a.len() > 0 {
        assert(whole[0] == a[0]);
        assert(whole.drop_first() == a.drop_first() + s + b);
        assert(blank(a.drop_first())) by {
            assert forall|i: int| 0 <= i < a.len() - 1 implies text::is_space(
                #[trigger] a.drop_first()[i],
            ) by {
                assert(a.drop_first()[i] == a[i + 1]);
            }
        }
        lemma_blanks_around(a.drop_first(), s, b);
    } else if b.len() > 0 {
        assert(whole.last() == b.last());
        assert(whole.drop_last() == a + s + b.drop_last());
        assert(blank(b.drop_last())) by {
            assert forall|i: int| 0 <= i < b.len() - 1 implies text::is_space(
                #[trigger] b.drop_last()[i],
            ) by {
                assert(b.drop_last()[i] == b[i]);
            }
        }
        lemma_blanks_around(a, s, b.drop_last());
        lemma_blank_at_end(whole);
    } else {
        assert(whole == s);
    }
}

/// A text trims to what it trims to without a blank last character.
proof fn lemma_blank_at_end(s: Seq<char>)
    requires
        s.len() > 0,
        text::is_space(s.last()),
    ensures
        text::trimmed(s) == text::trimmed(s.drop_last()),
    decreases s.len(),
{
    if text::is_space(s[0]) {
        if s.len() > 1 {
            lemma_blank_at_end(s.drop_first());
            assert(s.drop_first().drop_last() == s.drop_last().drop_first());
            assert(s.drop_last()[0] == s[0]);
        } else {
            assert(s.drop_first() == s.drop_last());
        }
    } else {
        assert(s.drop_last()[0] == s[0]);
    }
}

/// A text without the separator is one piece.
pub proof fn lemma_one_piece(s: Seq<char>, sep: char)
    requires
        !s.contains(sep),
    ensures
        text::split_on(s, sep) == seq![s],
    decreases s.len(),
{
    if s.len() > 0 {
        assert(s.last() != sep);
        assert forall|i: int| 0 <= i < s.len() - 1 implies s.drop_last()[i] != sep by {
            assert(s.drop_last()[i] == s[i]);
        }
        lemma_one_piece(s.drop_last(), sep);
        assert(s.drop_last().push(s.last()) == s);
        assert(text::split_on(s, sep) == seq![s]);
    } else {
        assert(s == Seq::<char>::empty());
    }
}

/// What is cut at a separator is the pieces of what stands before it, and then
/// the pieces of what stands after it.
pub proof fn lemma_pieces_joined(a: Seq<char>, sep: char, b: Seq<char>)
    ensures
        text::split_on(a + seq![sep] + b, sep) == text::split_on(a, sep) + text::split_on(b, sep),
    decreases b.len(),
{
    let s = a + seq![sep] + b;
    text::lemma_split_nonempty(a, sep);
    text::lemma_split_nonempty(b, sep);
    if b.len() == 0 {
        assert(s.drop_last() == a);
        assert(s.last() == sep);
        assert(text::split_on(s, sep) == text::split_on(a, sep) + seq![Seq::<char>::empty()]);
    } else {
        lemma_pieces_joined(a, sep, b.drop_last());
        assert(s.drop_last() == a + seq![sep] + b.drop_last());
        assert(s.last() == b.last());
        let x = text::split_on(a, sep);
        let y = text::split_on(b.drop_last(), sep);
        text::lemma_split_nonempty(b.drop_last(), sep);
        if b.last() == sep {
            assert((x + y).push(Seq::empty()) == x + y.push(Seq::empty()));
        } else {
            assert((x + y).last() == y.last());
            assert((x + y).drop_last().push(y.last().push(b.last())) == x + y.drop_last().push(
                y.last().push(b.last()),
            ));
        }
    }
}

proof fn lemma_nonblank_joined(a: Seq<Seq<char>>, b: Seq<Seq<char>>)
    ensures
        text::nonblank(a + b) == text::nonblank(a) + text::nonblank(b),
    decreases b.len(),
{
    if b.len() == 0 {
        assert(a + b == a);
        assert(text::nonblank(b) == Seq::<Seq<char>>::empty());
        assert(text::nonblank(a) + Seq::<Seq<char>>::empty() == text::nonblank(a));
    } else {
        assert((a + b).drop_last() == a + b.drop_last());
        assert((a + b).last() == b.last());
        lemma_nonblank_joined(a, b.drop_last());
        let t = text::trimmed(b.last());
        let x = text::nonblank(a);
        let y = text::nonblank(b.drop_last());
        assert((x + y).push(t) == x + y.push(t));
    }
}

/// A list without a comma is one item, trimmed, or none where it is blank; a
/// list with a comma is the items before it and then the items after it.
pub proof fn lemma_items_joined(a: Seq<char>, b: Seq<char>)
    ensures
        text::items_of(a + seq![','] + b) == text::items_of(a) + text::items_of(b),
        !a.contains(',') && text::trimmed(a).len() > 0 ==> text::items_of(a) == seq![
            text::trimmed(a),
        ],
        !a.contains(',') && text::trimmed(a).len() == 0 ==> text::items_of(a) == Seq::<
            Seq<char>,
        >::empty(),
{
    lemma_pieces_joined(a, ',', b);
    lemma_nonblank_joined(text::split_on(a, ','), text::split_on(b, ','));
    if !a.contains(',') {
        lemma_one_piece(a, ',');
        let one = seq![a];
        assert(one.drop_last() == Seq::<Seq<char>>::empty());
        assert(one.last() == a);
        assert(text::nonblank(one.drop_last()) == Seq::<Seq<char>>::empty());
        assert(Seq::<Seq<char>>::empty().push(text::trimmed(a)) == seq![text::trimmed(a)]);
    }
}

/// A text is cut at its first `c`: what stands before it holds no `c`, and the
/// two halves with the `c` between them are the text. A text that holds no `c` is
/// not cut.
pub proof fn lemma_cut(s: Seq<char>, a: Seq<char>, b: Seq<char>, c: char)
    ensures
        !a.contains(c) ==> text::cut_at_first(a + seq![c] + b, c) == Some((a, b)),
        text::cut_at_first(s, c) is None <==> !s.contains(c),
        text::cut_at_first(s, c) matches Some((x, y)) ==> s == x + seq![c] + y && !x.contains(c),
{
    if !a.contains(c) {
        let t = a + seq![c] + b;
        let n = a.len() as int;
        assert forall|j: int| 0 <= j < n implies t[j] != c by {
            assert(t[j] == a[j]);
        }
        assert(t[n] == c);
        text::lemma_cut_at(t, c, n);
        assert(t.take(n) == a);
        assert(t.skip(n + 1) == b);
    }
    if s.contains(c) {
        let i = lemma_first_place(s, c);
        text::lemma_cut_at(s, c, i);
        let x = s.take(i);
        assert(s == x + seq![c] + s.skip(i + 1));
        assert forall|j: int| 0 <= j < x.len() implies x[j] != c by {
            assert(x[j] == s[j]);
        }
    }
}

proof fn lemma_first_place(s: Seq<char>, c: char) -> (i: int)
    requires
        s.contains(c),
    ensures
        text::is_first_of(s, c, i),
    decreases s.len(),
{
    if s.drop_last().contains(c) {
        let i = lemma_first_place(s.drop_last(), c);
        assert(s[i] == s.drop_last()[i]);
        assert forall|j: int| 0 <= j < i implies s[j] != c by {
            assert(s[j] == s.drop_last()[j]);
        }
        i
    } else {
        let k = choose|k: int| 0 <= k < s.len() && s[k] == c;
        assert forall|j: int| 0 <= j < s.len() - 1 implies s[j] != c by {
            assert(s[j] == s.drop_last()[j]);
        }
        assert(k == s.len() - 1);
        k
    }
}

/// What follows a prefix, put behind it, is the text, and likewise what precedes
/// a suffix; there is a prefix or suffix if and only if there is such a rest.
pub proof fn lemma_affixes(s: Seq<char>, p: Seq<char>, rest: Seq<char>)
    ensures
        text::after_prefix(s, p) == Some(rest) <==> s == p + rest,
        text::before_suffix(s, p) == Some(rest) <==> s == rest + p,
        text::begins_with(s, p) <==> text::after_prefix(s, p) is Some,
        text::finishes_with(s, p) <==> text::before_suffix(s, p) is Some,
{
    let n = p.len() as int;
    if text::begins_with(s, p) {
        assert(s == p + s.skip(n));
    }
    if s == p + rest {
        assert(s.take(n) == p);
        assert(s.skip(n) == rest);
    }
    if text::finishes_with(s, p) {
        assert(s == s.take(s.len() - n) + p);
    }
    if s == rest + p {
        assert(s.skip(s.len() - n) == p);
        assert(s.take(s.len() - n) == rest);
    }
}

/// A text stands at a place if and only if it can be cut out there.
pub proof fn lemma_stands(s: Seq<char>, a: Seq<char>, p: Seq<char>, b: Seq<char>, i: int)
    ensures
        s == a + p + b ==> text::stands_at(s, p, a.len() as int),
        text::stands_at(s, p, i) ==> s == s.take(i) + p + s.skip(i + p.len()),
{
    if s == a + p + b {
        assert(s.subrange(a.len() as int, (a.len() + p.len()) as int) == p);
    }
    if text::stands_at(s, p, i) {
        assert(s == s.take(i) + s.subrange(i, i + p.len()) + s.skip(i + p.len()));
    }
}

/// The characters that go from the end are all `c`, and no `c` is left there.
pub proof fn lemma_end_char_gone(s: Seq<char>, c: char)
    ensures
        text::trim_end_char(s, c).len() <= s.len(),
        text::trim_end_char(s, c) == s.take(text::trim_end_char(s, c).len() as int),
        forall|i: int| text::trim_end_char(s, c).len() <= i < s.len() ==> s[i] == c,
        text::trim_end_char(s, c).len() > 0 ==> text::trim_end_char(s, c).last() != c,
    decreases s.len(),
{
    if s.len() > 0 && s.last() == c {
        lemma_end_char_gone(s.drop_last(), c);
        let r = text::trim_end_char(s, c);
        assert(r == s.drop_last().take(r.len() as int));
        assert(r == s.take(r.len() as int));
        assert forall|i: int| r.len() <= i < s.len() implies s[i] == c by {
            if i < s.len() - 1 {
                assert(s.drop_last()[i] == c);
            }
        }
    } else {
        assert(s.take(s.len() as int) == s);
    }
}

/// In lower case each capital of ASCII is the letter 32 places on, and every
/// other character is itself.
pub proof fn lemma_lower_case(s: Seq<char>)
    ensures
        text::lowered(s).len() == s.len(),
        forall|i: int|
            0 <= i < s.len() ==> {
                let n = s[i] as int;
                #[trigger] text::lowered(s)[i] as int == if 65 <= n <= 90 {
                    n + 32
                } else {
                    n
                }
            },
{
}

/// A text comes before another if and only if it is a beginning of it, or has the
/// lesser character at the first place where they differ.
pub proof fn lemma_text_order(a: Seq<char>, b: Seq<char>, k: int)
    requires
        0 <= k <= a.len(),
        k <= b.len(),
        a.take(k) == b.take(k),
        k == a.len() || k == b.len() || a[k] != b[k],
    ensures
        text::text_lt(a, b) <==> {
            ||| k == a.len() && k < b.len()
            ||| k < a.len() && k < b.len() && (a[k] as int) < (b[k] as int)
        },
    decreases k,
{
    if k > 0 {
        assert(a.take(k)[0] == a[0]);
        assert(b.take(k)[0] == b[0]);
        let x = a.drop_first();
        let y = b.drop_first();
        assert(x.take(k - 1) == a.take(k).drop_first());
        assert(y.take(k - 1) == b.take(k).drop_first());
        lemma_text_order(x, y, k - 1);
    }
}

/// A digit is a character from `0` to `9`. A number below ten is one digit; any
/// other is the number without its last digit, and then that digit.
pub proof fn lemma_decimal(n: nat, d: nat)
    requires
        d < 10,
    ensures
        text::decimal(0) == seq!['0'],
        text::decimal(d).len() == 1,
        text::decimal(d)[0] as int == 48 + d,
        n > 0 ==> text::decimal(10 * n + d) == text::decimal(n) + text::decimal(d),
{
    let m = 10 * n + d;
    assert(m / 10 == n && m % 10 == d);
    assert(text::digit(0) == '0');
    assert(text::digit(d) as int == 48 + d);
    if n > 0 {
        assert(text::decimal(m) == text::decimal(n).push(text::digit(d)));
        assert(text::decimal(d) == seq![text::digit(d)]);
        assert(text::decimal(n).push(text::digit(d)) == text::decimal(n) + seq![text::digit(d)]);
    }
}

/// Every place of a text is replaced on its own: the one that holds the character
/// by what stands for it, any other by itself.
pub proof fn lemma_char_replaced(a: Seq<char>, b: Seq<char>, c: char, from: char, to: Seq<char>)
    ensures
        text::replaced_char(a + b, from, to) == text::replaced_char(a, from, to)
            + text::replaced_char(b, from, to),
        text::replaced_char(Seq::empty(), from, to) == Seq::<char>::empty(),
        text::replaced_char(seq![from], from, to) == to,
        c != from ==> text::replaced_char(seq![c], from, to) == seq![c],
    decreases b.len(),
{
    let none = Seq::<char>::empty();
    assert(seq![from].drop_last() == none);
    assert(seq![c].drop_last() == none);
    assert(text::replaced_char(none, from, to) == none);
    assert(none + to == to);
    assert(none.push(c) == seq![c]);
    if b.len() == 0 {
        assert(a + b == a);
        assert(text::replaced_char(a, from, to) + none == text::replaced_char(a, from, to));
        assert(b == none);
    } else {
        lemma_char_replaced(a, b.drop_last(), c, from, to);
        assert((a + b).drop_last() == a + b.drop_last());
        assert((a + b).last() == b.last());
        let x = text::replaced_char(a, from, to);
        let y = text::replaced_char(b.drop_last(), from, to);
        assert((x + y) + to == x + (y + to));
        assert((x + y).push(b.last()) == x + y.push(b.last()));
    }
}

/// The next place of a text at or after a place is one at which it stands, and it
/// stands nowhere between; where there is none, it stands nowhere from there on.
pub proof fn lemma_next_place(s: Seq<char>, p: Seq<char>, from: int, j: int)
    requires
        0 <= from <= j,
        j + p.len() <= s.len(),
        s.subrange(j, j + p.len()) == p,
    ensures
        text::next_place(s, p, from) matches Some(i) && from <= i <= j && i + p.len() <= s.len()
            && s.subrange(i, i + p.len()) == p,
        forall|k: int|
            #![trigger s.subrange(k, k + p.len())]
            from <= k < text::next_place(s, p, from)->0 ==> s.subrange(k, k + p.len()) != p,
{
    let i = lemma_some_next(s, p, from, j);
    text::lemma_next_unique(s, p, from, i);
    assert forall|k: int|
        #![trigger s.subrange(k, k + p.len())]
        from <= k < i implies s.subrange(k, k + p.len()) != p by {
        assert(!text::stands_at(s, p, k));
    }
}

proof fn lemma_some_next(s: Seq<char>, p: Seq<char>, from: int, j: int) -> (i: int)
    requires
        0 <= from <= j,
        text::stands_at(s, p, j),
    ensures
        text::is_next(s, p, from, i),
        i <= j,
    decreases j - from,
{
    if text::stands_at(s, p, from) {
        from
    } else {
        let i = lemma_some_next(s, p, from + 1, j);
        i
    }
}

/// A text in which another does not stand is left as it is; one in which it
/// stands behind `a`, and at no earlier place, has it replaced there, and what
/// follows is replaced in the same way.
pub proof fn lemma_all_replaced(s: Seq<char>, a: Seq<char>, p: Seq<char>, b: Seq<char>, to: Seq<char>)
    requires
        p.len() > 0,
    ensures
        (forall|i: int| !#[trigger] text::stands_at(s, p, i)) ==> text::replaced_all(s, p, to) == s,
        (s == a + p + b && forall|i: int| 0 <= i < a.len() ==> !#[trigger] text::stands_at(s, p, i))
            ==> text::replaced_all(s, p, to) == a + to + text::replaced_all(b, p, to),
{
    if s == a + p + b && forall|i: int|
        0 <= i < a.len() ==> !#[trigger] text::stands_at(s, p, i) {
        let n = a.len() as int;
        lemma_stands(s, a, p, b, 0);
        assert(text::is_next(s, p, 0, n));
        text::lemma_next_unique(s, p, 0, n);
        assert(s.take(n) == a);
        assert(s.skip(n + p.len()) == b);
    }
}

/// A text of ASCII takes as many bytes as it has characters.
pub proof fn lemma_bytes(s: Seq<char>)
    requires
        forall|i: int| 0 <= i < s.len() ==> '\0' <= #[trigger] s[i] <= '\u{7f}',
    ensures
        text::byte_len(s) == s.len(),
{
    vstd::utf8::is_ascii_chars_encode_utf8(s);
}

}
