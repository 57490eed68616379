//! Text primitives: trimming, splitting, searching, replacing and ordering.
//!
//! Every function here is stated over the sequence of characters that a
//! string holds.

use vstd::prelude::*;

verus! {

/// `String::push` of std: appends the character at the end.
pub assume_specification[ String::push ](s: &mut String, c: char)
    ensures
        final(s)@ == old(s)@.push(c),
;

/// `str::eq` of std: two string slices are equal exactly when they hold the
/// same characters.
pub assume_specification[ <str as PartialEq>::eq ](a: &str, b: &str) -> (res: bool)
    ensures
        res == (a@ == b@),
;

/// The characters of each string of a list.
pub open spec fn texts(v: Seq<String>) -> Seq<Seq<char>> {
    v.map_values(|t: String| t@)
}

/// The characters of an optional string.
pub open spec fn opt_text(o: Option<String>) -> Option<Seq<char>> {
    match o {
        Some(t) => Some(t@),
        None => None,
    }
}

/// The characters of an optional string slice.
pub open spec fn opt_str(o: Option<&str>) -> Option<Seq<char>> {
    match o {
        Some(t) => Some(t@),
        None => None,
    }
}

/// The characters of `s`, one by one.
pub fn chars_of(s: &str) -> (r: Vec<char>)
    ensures
        r@ == s@,
{
    let mut v: Vec<char> = Vec::new();
    for c in it: s.chars()
        invariant
            v@ == s@.take(it.index() as int),
            it.seq() == s@,
    {
        v.push(c);
    }
    assert(s@.take(s@.len() as int) == s@);
    v
}

/// The string that holds the characters of `v` from `from` up to `to`.
pub fn text_of(v: &Vec<char>, from: usize, to: usize) -> (r: String)
    requires
        from <= to <= v.len(),
    ensures
        r@ == v@.subrange(from as int, to as int),
{
    let mut s = String::new();
    let mut i: usize = from;
    while i < to
        invariant
            from <= i <= to <= v.len(),
            s@ == v@.subrange(from as int, i as int),
        decreases to - i,
    {
        s.push(v[i]);
        i += 1;
        assert(v@.subrange(from as int, i as int) == v@.subrange(from as int, i - 1).push(
            v@[i - 1],
        ));
    }
    s
}

/// `a` followed by `b`.
pub fn join(a: &str, b: &str) -> (r: String)
    ensures
        r@ == a@ + b@,
{
    let mut s = a.to_owned();
    s.append(b);
    s
}

/// `a` followed by `b` and `c`.
pub fn join3(a: &str, b: &str, c: &str) -> (r: String)
    ensures
        r@ == a@ + b@ + c@,
{
    let mut s = a.to_owned();
    s.append(b);
    s.append(c);
    s
}

/// How many bytes `s` takes in UTF-8.
pub open spec fn byte_len(s: Seq<char>) -> nat {
    vstd::utf8::encode_utf8(s).len()
}

/// How many bytes `s` takes in UTF-8.
pub fn byte_length(s: &str) -> (r: usize)
    ensures
        r == byte_len(s@),
{
    s.as_bytes().len()
}

/// Whether two strings hold the same characters.
pub fn same(a: &str, b: &str) -> (r: bool)
    ensures
        r == (a@ == b@),
{
    a.eq(b)
}

/// Whether two optional strings are both absent or hold the same characters.
pub fn same_opt(a: &Option<String>, b: &Option<String>) -> (r: bool)
    ensures
        r == (opt_text(*a) == opt_text(*b)),
{
    match (a, b) {
        (Some(x), Some(y)) => same(x.as_str(), y.as_str()),
        (None, None) => true,
        _ => false,
    }
}

/// Whether some string of `v` holds the characters of `t`.
pub fn contains_text(v: &Vec<String>, t: &str) -> (r: bool)
    ensures
        r == texts(v@).contains(t@),
{
    let mut i: usize = 0;
    while i < v.len()
        invariant
            0 <= i <= v.len(),
            forall|j: int| 0 <= j < i ==> (#[trigger] texts(v@)[j]) != t@,
        decreases v.len() - i,
    {
        if same(v[i].as_str(), t) {
            assert(texts(v@)[i as int] == t@);
            return true;
        }
        i += 1;
    }
    false
}

/// The white space of Unicode: tab to carriage return, space, next line,
/// no-break space and the separators.
pub open spec fn is_space(c: char) -> bool {
    let n = c as int;
    ||| 0x9 <= n <= 0xd
    ||| n == 0x20
    ||| n == 0x85
    ||| n == 0xa0
    ||| n == 0x1680
    ||| 0x2000 <= n <= 0x200a
    ||| n == 0x2028
    ||| n == 0x2029
    ||| n == 0x202f
    ||| n == 0x205f
    ||| n == 0x3000
}

/// Whether `c` is white space.
pub fn char_is_space(c: char) -> (r: bool)
    ensures
        r == is_space(c),
{
    let n: u32 = c as u32;
    (0x9 <= n && n <= 0xd) || n == 0x20 || n == 0x85 || n == 0xa0 || n == 0x1680 || (0x2000 <= n
        && n <= 0x200a) || n == 0x2028 || n == 0x2029 || n == 0x202f || n == 0x205f || n == 0x3000
}

/// `s` without its leading white space.
pub open spec fn trim_start(s: Seq<char>) -> Seq<char>
    decreases s.len(),
{
    if s.len() > 0 && is_space(s[0]) {
        trim_start(s.drop_first())
    } else {
        s
    }
}

/// `s` without its trailing white space.
pub open spec fn trim_end(s: Seq<char>) -> Seq<char>
    decreases s.len(),
{
    if s.len() > 0 && is_space(s.last()) {
        trim_end(s.drop_last())
    } else {
        s
    }
}

/// `s` without the white space at its two ends.
pub open spec fn trimmed(s: Seq<char>) -> Seq<char> {
    trim_end(trim_start(s))
}

/// `s` without the white space at its two ends.
pub fn trim(s: &str) -> (r: String)
    ensures
        r@ == trimmed(s@),
{
    let v = chars_of(s);
    let n = v.len();
    let mut lo: usize = 0;
    assert(v@.subrange(0, n as int) == v@);
    while lo < n && char_is_space(v[lo])
        invariant
            n == v.len(),
            0 <= lo <= n,
            trim_start(v@.subrange(lo as int, n as int)) == trim_start(v@),
        decreases n - lo,
    {
        assert(v@.subrange(lo as int, n as int).drop_first() == v@.subrange(lo + 1, n as int));
        lo += 1;
    }
    assert(trim_start(v@) == v@.subrange(lo as int, n as int));
    let mut hi: usize = n;
    while hi > lo && char_is_space(v[hi - 1])
        invariant
            n == v.len(),
            0 <= lo <= hi <= n,
            trim_end(v@.subrange(lo as int, hi as int)) == trim_end(
                v@.subrange(lo as int, n as int),
            ),
        decreases hi,
    {
        assert(v@.subrange(lo as int, hi as int).drop_last() == v@.subrange(lo as int, hi - 1));
        hi -= 1;
    }
    assert(trim_end(v@.subrange(lo as int, hi as int)) == v@.subrange(lo as int, hi as int));
    text_of(&v, lo, hi)
}

/// Text that begins and ends with no white space is left as it is.
pub proof fn lemma_trimmed_keeps(s: Seq<char>)
    requires
        s.len() > 0 ==> !is_space(s[0]) && !is_space(s.last()),
    ensures
        trimmed(s) == s,
{
}

/// Leading white space goes, character by character.
pub proof fn lemma_trim_start_bounds(s: Seq<char>)
    ensures
        exists|k: int| 0 <= k <= s.len() && trim_start(s) == s.skip(k),
        trim_start(s).len() > 0 ==> !is_space(trim_start(s)[0]),
    decreases s.len(),
{
    if s.len() > 0 && is_space(s[0]) {
        lemma_trim_start_bounds(s.drop_first());
        let k = choose|k: int|
            0 <= k <= s.drop_first().len() && trim_start(s.drop_first()) == s.drop_first().skip(k);
        assert(s.drop_first().skip(k) == s.skip(k + 1));
    } else {
        assert(s == s.skip(0));
    }
}

/// Trailing white space goes, character by character.
pub proof fn lemma_trim_end_bounds(s: Seq<char>)
    ensures
        exists|k: int| 0 <= k <= s.len() && trim_end(s) == s.take(k),
        trim_end(s).len() > 0 ==> !is_space(trim_end(s).last()),
    decreases s.len(),
{
    if s.len() > 0 && is_space(s.last()) {
        lemma_trim_end_bounds(s.drop_last());
        let k = choose|k: int|
            0 <= k <= s.drop_last().len() && trim_end(s.drop_last()) == s.drop_last().take(k);
        assert(s.drop_last().take(k) == s.take(k));
    } else {
        assert(s == s.take(s.len() as int));
    }
}

/// Trimming twice is trimming once.
pub proof fn lemma_trim_idempotent(s: Seq<char>)
    ensures
        trimmed(trimmed(s)) == trimmed(s),
{
    let a = trim_start(s);
    lemma_trim_start_bounds(s);
    lemma_trim_end_bounds(a);
    let t = trim_end(a);
    let k = choose|k: int| 0 <= k <= a.len() && t == a.take(k);
    if t.len() > 0 {
        assert(t[0] == a[0]);
    }
    lemma_trimmed_keeps(t);
}

/// `s` cut at every `sep`: one piece more than there are separators.
pub open spec fn split_on(s: Seq<char>, sep: char) -> Seq<Seq<char>>
    decreases s.len(),
{
    if s.len() == 0 {
        seq![Seq::<char>::empty()]
    } else {
        let head = split_on(s.drop_last(), sep);
        if s.last() == sep {
            head.push(Seq::<char>::empty())
        } else {
            head.drop_last().push(head.last().push(s.last()))
        }
    }
}

/// There is always at least one piece.
pub proof fn lemma_split_nonempty(s: Seq<char>, sep: char)
    ensures
        split_on(s, sep).len() >= 1,
    decreases s.len(),
{
    if s.len() > 0 {
        lemma_split_nonempty(s.drop_last(), sep);
    }
}

/// No piece holds the separator.
pub proof fn lemma_split_pieces_clean(s: Seq<char>, sep: char)
    ensures
        forall|i: int| 0 <= i < split_on(s, sep).len() ==> !(#[trigger] split_on(s, sep)[i]).contains(
            sep,
        ),
    decreases s.len(),
{
    lemma_split_nonempty(s, sep);
    if s.len() > 0 {
        lemma_split_pieces_clean(s.drop_last(), sep);
        lemma_split_nonempty(s.drop_last(), sep);
        let head = split_on(s.drop_last(), sep);
        assert forall|i: int| 0 <= i < split_on(s, sep).len() implies !(#[trigger] split_on(
            s,
            sep,
        )[i]).contains(sep) by {
            let piece = split_on(s, sep)[i];
            if s.last() == sep {
                if i < head.len() {
                    assert(piece == head[i]);
                }
            } else if i < head.len() - 1 {
                assert(piece == head[i]);
            } else {
                assert(piece == head.last().push(s.last()));
                assert(head.last() == head[head.len() - 1]);
                if piece.contains(sep) {
                    let k = choose|k: int| 0 <= k < piece.len() && piece[k] == sep;
                    assert(k < head.last().len());
                    assert(head.last()[k] == sep);
                    assert(head.last().contains(sep));
                }
            }
        }
    }
}

/// `s` cut at every `sep`.
pub fn split(s: &str, sep: char) -> (r: Vec<String>)
    ensures
        texts(r@) == split_on(s@, sep),
{
    let v = chars_of(s);
    let n = v.len();
    let mut out: Vec<String> = Vec::new();
    let mut start: usize = 0;
    let mut i: usize = 0;
    let ghost mut done: Seq<Seq<char>> = Seq::empty();
    assert(v@.take(0) == Seq::<char>::empty());
    assert(v@.subrange(0, 0) == Seq::<char>::empty());
    assert(split_on(v@.take(0), sep) == done.push(v@.subrange(0, 0)));
    while i < n
        invariant
            n == v.len(),
            0 <= start <= i <= n,
            texts(out@) == done,
            split_on(v@.take(i as int), sep) == done.push(v@.subrange(start as int, i as int)),
        decreases n - i,
    {
        assert(v@.take(i + 1).drop_last() == v@.take(i as int));
        assert(v@.take(i + 1).last() == v@[i as int]);
        let ghost before = done.push(v@.subrange(start as int, i as int));
        if v[i] == sep {
            out.push(text_of(&v, start, i));
            proof {
                done = done.push(v@.subrange(start as int, i as int));
                assert(texts(out@) == done);
                assert(v@.subrange(i + 1, i + 1) == Seq::<char>::empty());
            }
            start = i + 1;
        } else {
            proof {
                assert(before.drop_last() == done);
                assert(before.last() == v@.subrange(start as int, i as int));
                assert(v@.subrange(start as int, i + 1) == v@.subrange(start as int, i as int).push(
                    v@[i as int],
                ));
            }
        }
        i += 1;
    }
    assert(v@.take(n as int) == v@);
    out.push(text_of(&v, start, n));
    assert(texts(out@) == done.push(v@.subrange(start as int, n as int)));
    out
}

/// The pieces that are not blank, each without the white space at its ends.
pub open spec fn nonblank(pieces: Seq<Seq<char>>) -> Seq<Seq<char>>
    decreases pieces.len(),
{
    if pieces.len() == 0 {
        Seq::empty()
    } else {
        let head = nonblank(pieces.drop_last());
        let t = trimmed(pieces.last());
        if t.len() == 0 {
            head
        } else {
            head.push(t)
        }
    }
}

/// The items of a comma separated list: what stands between the commas,
/// trimmed, the blank ones left out.
pub open spec fn items_of(s: Seq<char>) -> Seq<Seq<char>> {
    nonblank(split_on(s, ','))
}

/// The items of a comma separated list.
pub fn list_items(s: &str) -> (r: Vec<String>)
    ensures
        texts(r@) == items_of(s@),
{
    let pieces = split(s, ',');
    let mut out: Vec<String> = Vec::new();
    let mut i: usize = 0;
    let ghost all = texts(pieces@);
    while i < pieces.len()
        invariant
            0 <= i <= pieces.len(),
            all == texts(pieces@),
            texts(out@) == nonblank(all.take(i as int)),
        decreases pieces.len() - i,
    {
        let t = trim(pieces[i].as_str());
        proof {
            assert(all.take(i + 1).drop_last() == all.take(i as int));
            assert(all.take(i + 1).last() == pieces@[i as int]@);
        }
        if !t.as_str().is_empty() {
            let ghost before = out@;
            out.push(t);
            assert(texts(out@) == texts(before).push(t@));
        }
        i += 1;
    }
    assert(all.take(pieces.len() as int) == all);
    out
}

/// Every item of a list is trimmed and not empty.
pub proof fn lemma_items_clean(s: Seq<char>)
    ensures
        forall|i: int|
            0 <= i < items_of(s).len() ==> (#[trigger] items_of(s)[i]).len() > 0 && trimmed(
                items_of(s)[i],
            ) == items_of(s)[i],
{
    lemma_nonblank_clean(split_on(s, ','));
}

proof fn lemma_nonblank_clean(pieces: Seq<Seq<char>>)
    ensures
        forall|i: int|
            0 <= i < nonblank(pieces).len() ==> (#[trigger] nonblank(pieces)[i]).len() > 0
                && trimmed(nonblank(pieces)[i]) == nonblank(pieces)[i],
    decreases pieces.len(),
{
    if pieces.len() > 0 {
        let head = nonblank(pieces.drop_last());
        lemma_nonblank_clean(pieces.drop_last());
        lemma_trim_idempotent(pieces.last());
        assert forall|i: int| 0 <= i < nonblank(pieces).len() implies (#[trigger] nonblank(
            pieces,
        )[i]).len() > 0 && trimmed(nonblank(pieces)[i]) == nonblank(pieces)[i] by {
            if i < head.len() {
                assert(nonblank(pieces)[i] == head[i]);
            }
        }
    }
}

/// Whether `i` is the first place of `c` in `s`.
pub open spec fn is_first_of(s: Seq<char>, c: char, i: int) -> bool {
    &&& 0 <= i < s.len()
    &&& s[i] == c
    &&& forall|j: int| 0 <= j < i ==> s[j] != c
}

/// What stands before and after the first `c`, if there is one.
pub open spec fn cut_at_first(s: Seq<char>, c: char) -> Option<(Seq<char>, Seq<char>)> {
    if s.contains(c) {
        let i = choose|i: int| is_first_of(s, c, i);
        Some((s.take(i), s.skip(i + 1)))
    } else {
        None
    }
}

/// The cut falls at the place that is the first one.
pub proof fn lemma_cut_at(s: Seq<char>, c: char, i: int)
    requires
        is_first_of(s, c, i),
    ensures
        cut_at_first(s, c) == Some((s.take(i), s.skip(i + 1))),
{
    assert(s.contains(c));
    let k = choose|k: int| is_first_of(s, c, k);
    assert(k == i) by {
        if k < i {
            assert(s[k] != c);
        } else if i < k {
            assert(s[i] != c);
        }
    }
}

/// What stands before and after the first `c`, if there is one.
pub fn split_once(s: &str, c: char) -> (r: Option<(String, String)>)
    ensures
        match r {
            Some((a, b)) => cut_at_first(s@, c) == Some((a@, b@)),
            None => cut_at_first(s@, c) is None,
        },
{
    let v = chars_of(s);
    let n = v.len();
    let mut i: usize = 0;
    while i < n
        invariant
            n == v.len(),
            v@ == s@,
            0 <= i <= n,
            forall|j: int| 0 <= j < i ==> v@[j] != c,
        decreases n - i,
    {
        if v[i] == c {
            proof {
                lemma_cut_at(s@, c, i as int);
                assert(v@.subrange(0, i as int) == s@.take(i as int));
                assert(v@.subrange(i + 1, n as int) == s@.skip(i + 1));
            }
            return Some((text_of(&v, 0, i), text_of(&v, i + 1, n)));
        }
        i += 1;
    }
    None
}

/// Whether `s` begins with `p`.
pub open spec fn begins_with(s: Seq<char>, p: Seq<char>) -> bool {
    s.len() >= p.len() && s.take(p.len() as int) == p
}

/// Whether `s` ends with `p`.
pub open spec fn finishes_with(s: Seq<char>, p: Seq<char>) -> bool {
    s.len() >= p.len() && s.skip(s.len() - p.len()) == p
}

/// Whether `p` stands in `s` at place `i`.
pub open spec fn stands_at(s: Seq<char>, p: Seq<char>, i: int) -> bool {
    0 <= i && i + p.len() <= s.len() && s.subrange(i, i + p.len()) == p
}

/// Whether `p` stands in `v` at place `i`.
pub fn matches_at(v: &Vec<char>, p: &Vec<char>, i: usize) -> (r: bool)
    ensures
        r == stands_at(v@, p@, i as int),
{
    if i > v.len() || p.len() > v.len() - i {
        return false;
    }
    let mut k: usize = 0;
    while k < p.len()
        invariant
            0 <= k <= p.len(),
            i + p.len() <= v.len(),
            forall|j: int| 0 <= j < k ==> v@[i + j] == p@[j],
        decreases p.len() - k,
    {
        if v[i + k] != p[k] {
            assert(v@.subrange(i as int, i + p.len())[k as int] != p@[k as int]);
            return false;
        }
        k += 1;
    }
    assert(v@.subrange(i as int, i + p.len()) == p@);
    true
}

/// Whether `s` begins with `p`.
pub fn starts_with(s: &str, p: &str) -> (r: bool)
    ensures
        r == begins_with(s@, p@),
{
    let v = chars_of(s);
    let w = chars_of(p);
    assert(s@.len() >= p@.len() ==> s@.take(p@.len() as int) == s@.subrange(0, p@.len() as int));
    matches_at(&v, &w, 0)
}

/// Whether `s` ends with `p`.
pub fn ends_with(s: &str, p: &str) -> (r: bool)
    ensures
        r == finishes_with(s@, p@),
{
    let v = chars_of(s);
    let w = chars_of(p);
    if w.len() > v.len() {
        return false;
    }
    assert(s@.skip(s@.len() - p@.len()) == s@.subrange(s@.len() - p@.len(), s@.len() as int));
    matches_at(&v, &w, v.len() - w.len())
}

/// What follows `p`, if `s` begins with it.
pub open spec fn after_prefix(s: Seq<char>, p: Seq<char>) -> Option<Seq<char>> {
    if begins_with(s, p) {
        Some(s.skip(p.len() as int))
    } else {
        None
    }
}

/// What precedes `p`, if `s` ends with it.
pub open spec fn before_suffix(s: Seq<char>, p: Seq<char>) -> Option<Seq<char>> {
    if finishes_with(s, p) {
        Some(s.take(s.len() - p.len()))
    } else {
        None
    }
}

/// What follows `p`, if `s` begins with it.
pub fn strip_prefix(s: &str, p: &str) -> (r: Option<String>)
    ensures
        opt_text(r) == after_prefix(s@, p@),
{
    if starts_with(s, p) {
        let v = chars_of(s);
        let w = chars_of(p);
        assert(s@.skip(p@.len() as int) == s@.subrange(p@.len() as int, s@.len() as int));
        Some(text_of(&v, w.len(), v.len()))
    } else {
        None
    }
}

/// What precedes `p`, if `s` ends with it.
pub fn strip_suffix(s: &str, p: &str) -> (r: Option<String>)
    ensures
        opt_text(r) == before_suffix(s@, p@),
{
    if ends_with(s, p) {
        let v = chars_of(s);
        let w = chars_of(p);
        assert(s@.take(s@.len() - p@.len()) == s@.subrange(0, s@.len() - p@.len()));
        Some(text_of(&v, 0, v.len() - w.len()))
    } else {
        None
    }
}

/// `s` without the `c` that it ends with, however many there are.
pub open spec fn trim_end_char(s: Seq<char>, c: char) -> Seq<char>
    decreases s.len(),
{
    if s.len() > 0 && s.last() == c {
        trim_end_char(s.drop_last(), c)
    } else {
        s
    }
}

/// `s` without the `c` that it ends with, however many there are.
pub fn trim_end_matches(s: &str, c: char) -> (r: String)
    ensures
        r@ == trim_end_char(s@, c),
{
    let v = chars_of(s);
    let n = v.len();
    let mut hi: usize = n;
    assert(v@.subrange(0, n as int) == s@);
    while hi > 0 && v[hi - 1] == c
        invariant
            n == v.len(),
            0 <= hi <= n,
            trim_end_char(v@.subrange(0, hi as int), c) == trim_end_char(s@, c),
        decreases hi,
    {
        assert(v@.subrange(0, hi as int).drop_last() == v@.subrange(0, hi - 1));
        hi -= 1;
    }
    text_of(&v, 0, hi)
}

/// The ASCII lower case of a character; others stay as they are.
pub open spec fn lower_char(c: char) -> char {
    if 'A' <= c && c <= 'Z' {
        ((c as u8) + 32) as char
    } else {
        c
    }
}

/// `s` with its ASCII capitals in lower case.
pub open spec fn lowered(s: Seq<char>) -> Seq<char> {
    s.map_values(|c: char| lower_char(c))
}

/// `s` with its ASCII capitals in lower case.
pub fn to_ascii_lowercase(s: &str) -> (r: String)
    ensures
        r@ == lowered(s@),
{
    let v = chars_of(s);
    let mut out = String::new();
    let mut i: usize = 0;
    while i < v.len()
        invariant
            0 <= i <= v.len(),
            out@ == lowered(v@.take(i as int)),
        decreases v.len() - i,
    {
        let c = v[i];
        if 'A' <= c && c <= 'Z' {
            out.push((c as u8 + 32) as char);
        } else {
            out.push(c);
        }
        i += 1;
        assert(lowered(v@.take(i as int)) == lowered(v@.take(i - 1)).push(lower_char(v@[i - 1])));
    }
    assert(v@.take(v@.len() as int) == v@);
    out
}

/// Whether `a` comes before `b` in the order of their characters.
pub open spec fn text_lt(a: Seq<char>, b: Seq<char>) -> bool
    decreases a.len(),
{
    if b.len() == 0 {
        false
    } else if a.len() == 0 {
        true
    } else if a[0] != b[0] {
        (a[0] as int) < (b[0] as int)
    } else {
        text_lt(a.drop_first(), b.drop_first())
    }
}

/// Whether `a` comes before `b`.
pub fn comes_before(a: &str, b: &str) -> (r: bool)
    ensures
        r == text_lt(a@, b@),
{
    let v = chars_of(a);
    let w = chars_of(b);
    let mut i: usize = 0;
    assert(v@.skip(0) == v@);
    assert(w@.skip(0) == w@);
    while i < v.len() && i < w.len() && v[i] == w[i]
        invariant
            0 <= i <= v.len(),
            0 <= i <= w.len(),
            text_lt(v@.skip(i as int), w@.skip(i as int)) == text_lt(v@, w@),
        decreases v.len() - i,
    {
        assert(v@.skip(i as int).drop_first() == v@.skip(i + 1));
        assert(w@.skip(i as int).drop_first() == w@.skip(i + 1));
        i += 1;
    }
    if i == w.len() {
        false
    } else if i == v.len() {
        true
    } else {
        v[i] < w[i]
    }
}

/// Of two different texts exactly one comes before the other.
pub proof fn lemma_text_lt_total(a: Seq<char>, b: Seq<char>)
    ensures
        a == b ==> !text_lt(a, b),
        a != b ==> text_lt(a, b) != text_lt(b, a),
    decreases a.len(),
{
    if a.len() > 0 && b.len() > 0 && a[0] == b[0] {
        lemma_text_lt_total(a.drop_first(), b.drop_first());
        if a.drop_first() == b.drop_first() {
            assert(a == seq![a[0]] + a.drop_first());
            assert(b == seq![b[0]] + b.drop_first());
        }
    } else if a.len() == 0 && b.len() == 0 {
        assert(a == b);
    }
}

/// The order of texts is transitive.
pub proof fn lemma_text_lt_transitive(a: Seq<char>, b: Seq<char>, c: Seq<char>)
    requires
        text_lt(a, b),
        text_lt(b, c),
    ensures
        text_lt(a, c),
    decreases a.len(),
{
    if a.len() > 0 && a[0] == b[0] && b[0] == c[0] {
        lemma_text_lt_transitive(a.drop_first(), b.drop_first(), c.drop_first());
    }
}

/// Whether texts stand in their order, none twice.
pub open spec fn ascending(s: Seq<Seq<char>>) -> bool {
    forall|i: int, j: int| 0 <= i < j < s.len() ==> text_lt(#[trigger] s[i], #[trigger] s[j])
}

/// Two lists of texts in their order that hold the same texts are one.
pub proof fn lemma_ascending_unique(a: Seq<Seq<char>>, b: Seq<Seq<char>>)
    requires
        ascending(a),
        ascending(b),
        forall|t: Seq<char>| #[trigger] a.contains(t) == #[trigger] b.contains(t),
    ensures
        a == b,
    decreases a.len(),
{
    if a.len() == 0 {
        if b.len() > 0 {
            assert(b.contains(b[0]));
            assert(a.contains(b[0]));
        }
        assert(a =~= b);
    } else {
        let x = a.last();
        assert(a[a.len() - 1] == x);
        assert(a.contains(x));
        assert(b.contains(x));
        let k = choose|k: int| 0 <= k < b.len() && b[k] == x;
        let y = b.last();
        assert(b[b.len() - 1] == y);
        assert(b.contains(y));
        assert(a.contains(y));
        let m = choose|m: int| 0 <= m < a.len() && a[m] == y;
        assert(x == y) by {
            if k < b.len() - 1 {
                assert(text_lt(b[k], b[b.len() - 1]));
                if m < a.len() - 1 {
                    assert(text_lt(a[m], a[a.len() - 1]));
                    lemma_text_lt_total(x, y);
                }
            }
        }
        let a1 = a.drop_last();
        let b1 = b.drop_last();
        assert forall|i: int, j: int| 0 <= i < j < a1.len() implies text_lt(
            #[trigger] a1[i],
            #[trigger] a1[j],
        ) by {
            assert(a1[i] == a[i] && a1[j] == a[j]);
        }
        assert forall|i: int, j: int| 0 <= i < j < b1.len() implies text_lt(
            #[trigger] b1[i],
            #[trigger] b1[j],
        ) by {
            assert(b1[i] == b[i] && b1[j] == b[j]);
        }
        assert forall|t: Seq<char>| #[trigger] a1.contains(t) == #[trigger] b1.contains(t) by {
            if a1.contains(t) {
                let i = choose|i: int| 0 <= i < a1.len() && a1[i] == t;
                assert(a[i] == t);
                assert(text_lt(a[i], a[a.len() - 1]));
                lemma_text_lt_total(t, x);
                assert(a.contains(t) == b.contains(t));
                let j = choose|j: int| 0 <= j < b.len() && b[j] == t;
                assert(b1[j] == t);
            }
            if b1.contains(t) {
                let i = choose|i: int| 0 <= i < b1.len() && b1[i] == t;
                assert(b[i] == t);
                assert(text_lt(b[i], b[b.len() - 1]));
                lemma_text_lt_total(t, y);
                assert(a.contains(t) == b.contains(t));
                let j = choose|j: int| 0 <= j < a.len() && a[j] == t;
                assert(a1[j] == t);
            }
        }
        lemma_ascending_unique(a1, b1);
        assert(a =~= a1.push(x));
        assert(b =~= b1.push(y));
    }
}

/// Puts `t` at its place among texts in their order, unless it is there.
pub fn insert_text(v: &mut Vec<String>, t: &str)
    requires
        ascending(texts(old(v)@)),
    ensures
        ascending(texts(final(v)@)),
        forall|x: Seq<char>| #[trigger]
            texts(final(v)@).contains(x) == (texts(old(v)@).contains(x) || x == t@),
{
    let ghost all = texts(v@);
    let mut k: usize = v.len();
    while k > 0 && comes_before(t, v[k - 1].as_str())
        invariant
            0 <= k <= v@.len(),
            all == texts(v@),
            v@ == old(v)@,
            forall|j: int| k <= j < all.len() ==> text_lt(t@, #[trigger] all[j]),
        decreases k,
    {
        assert(all[k - 1] == v@[k - 1]@);
        k -= 1;
    }
    if k > 0 && same(t, v[k - 1].as_str()) {
        assert(all[k - 1] == t@);
        return ;
    }
    if k > 0 {
        assert(all[k - 1] == v@[k - 1]@);
        proof {
            lemma_text_lt_total(t@, all[k - 1]);
        }
    }
    v.insert(k, t.to_owned());
    let ghost now = texts(v@);
    assert(now =~= all.insert(k as int, t@));
    assert forall|i: int, j: int| 0 <= i < j < now.len() implies text_lt(
        #[trigger] now[i],
        #[trigger] now[j],
    ) by {
        let i0 = if i < k {
            i
        } else {
            i - 1
        };
        let j0 = if j < k {
            j
        } else {
            j - 1
        };
        if i == k {
            assert(now[j] == all[j0]);
        } else if j == k {
            assert(now[i] == all[i0]);
            if i0 < k - 1 {
                assert(text_lt(all[i0], all[k - 1]));
                lemma_text_lt_transitive(all[i0], all[k - 1], t@);
            }
        } else {
            assert(now[i] == all[i0] && now[j] == all[j0]);
        }
    }
    assert forall|x: Seq<char>| #[trigger] now.contains(x) == (all.contains(x) || x == t@) by {
        if all.contains(x) {
            let i = choose|i: int| 0 <= i < all.len() && all[i] == x;
            if i < k {
                assert(now[i] == x);
            } else {
                assert(now[i + 1] == x);
            }
        }
        if x == t@ {
            assert(now[k as int] == x);
        }
        if now.contains(x) && x != t@ {
            let i = choose|i: int| 0 <= i < now.len() && now[i] == x;
            if i < k {
                assert(all[i] == x);
            } else {
                assert(all[i - 1] == x);
            }
        }
    }
}

/// The character of a decimal digit.
pub open spec fn digit(d: nat) -> char {
    (('0' as u8) + d) as char
}

/// `n` in decimal.
pub open spec fn decimal(n: nat) -> Seq<char>
    decreases n,
{
    if n < 10 {
        seq![digit(n)]
    } else {
        decimal(n / 10).push(digit(n % 10))
    }
}

/// `n` in decimal.
pub fn decimal_text(n: u64) -> (r: String)
    ensures
        r@ == decimal(n as nat),
    decreases n,
{
    if n < 10 {
        let mut s = String::new();
        s.push((48 + n as u8) as char);
        assert(s@ == decimal(n as nat));
        s
    } else {
        let mut s = decimal_text(n / 10);
        s.push((48 + (n % 10) as u8) as char);
        s
    }
}

/// `s` with every `from` replaced by `to`.
pub open spec fn replaced_char(s: Seq<char>, from: char, to: Seq<char>) -> Seq<char>
    decreases s.len(),
{
    if s.len() == 0 {
        s
    } else {
        let head = replaced_char(s.drop_last(), from, to);
        if s.last() == from {
            head + to
        } else {
            head.push(s.last())
        }
    }
}

/// `s` with every `from` replaced by `to`.
pub fn replace_char(s: &str, from: char, to: &str) -> (r: String)
    ensures
        r@ == replaced_char(s@, from, to@),
{
    let v = chars_of(s);
    let mut out = String::new();
    let mut i: usize = 0;
    while i < v.len()
        invariant
            0 <= i <= v.len(),
            out@ == replaced_char(v@.take(i as int), from, to@),
        decreases v.len() - i,
    {
        assert(v@.take(i + 1).drop_last() == v@.take(i as int));
        assert(v@.take(i + 1).last() == v@[i as int]);
        if v[i] == from {
            out.append(to);
        } else {
            out.push(v[i]);
        }
        i += 1;
    }
    assert(v@.take(v@.len() as int) == v@);
    out
}

/// Whether `i` is the first place at or after `from` at which `p` stands in `s`.
pub open spec fn is_next(s: Seq<char>, p: Seq<char>, from: int, i: int) -> bool {
    &&& from <= i
    &&& stands_at(s, p, i)
    &&& forall|j: int| from <= j < i ==> !stands_at(s, p, j)
}

/// The first place at or after `from` at which `p` stands in `s`.
pub open spec fn next_place(s: Seq<char>, p: Seq<char>, from: int) -> Option<int> {
    if exists|i: int| is_next(s, p, from, i) {
        Some(choose|i: int| is_next(s, p, from, i))
    } else {
        None
    }
}

/// There is only one first place.
pub proof fn lemma_next_unique(s: Seq<char>, p: Seq<char>, from: int, i: int)
    requires
        is_next(s, p, from, i),
    ensures
        next_place(s, p, from) == Some(i),
{
    let k = choose|k: int| is_next(s, p, from, k);
    assert(k == i) by {
        if k < i {
            assert(!stands_at(s, p, k));
        } else if i < k {
            assert(!stands_at(s, p, i));
        }
    }
}

/// The first place at or after `from` at which `p` stands in `v`.
pub fn find_from(v: &Vec<char>, p: &Vec<char>, from: usize) -> (r: Option<usize>)
    ensures
        match r {
            Some(i) => is_next(v@, p@, from as int, i as int) && next_place(v@, p@, from as int)
                == Some(i as int),
            None => next_place(v@, p@, from as int) is None && forall|j: int|
                from <= j ==> !stands_at(v@, p@, j),
        },
{
    let n = v.len();
    let mut i: usize = from;
    while i < n
        invariant
            n == v.len(),
            from <= i,
            from <= n ==> i <= n,
            forall|j: int| from <= j < i ==> !stands_at(v@, p@, j),
        decreases n - i,
    {
        if matches_at(v, p, i) {
            proof {
                lemma_next_unique(v@, p@, from as int, i as int);
            }
            return Some(i);
        }
        i += 1;
    }
    if matches_at(v, p, i) {
        proof {
            lemma_next_unique(v@, p@, from as int, i as int);
        }
        return Some(i);
    }
    assert forall|j: int| from <= j implies !stands_at(v@, p@, j) by {}
    None
}

/// `s` with every occurrence of `p` replaced by `to`, left to right; an empty
/// `p` occurs nowhere.
pub open spec fn replaced_all(s: Seq<char>, p: Seq<char>, to: Seq<char>) -> Seq<char>
    decreases s.len(),
{
    match next_place(s, p, 0) {
        Some(i) => if p.len() > 0 && is_next(s, p, 0, i) {
            s.take(i) + to + replaced_all(s.skip(i + p.len()), p, to)
        } else {
            s
        },
        None => s,
    }
}

/// What follows place `k` is searched as the whole is from `k` on.
pub proof fn lemma_next_in_rest(s: Seq<char>, p: Seq<char>, k: int)
    requires
        0 <= k <= s.len(),
    ensures
        forall|j: int| 0 <= j ==> #[trigger] stands_at(s.skip(k), p, j) == stands_at(s, p, k + j),
        next_place(s.skip(k), p, 0) == match next_place(s, p, k) {
            Some(i) => Some(i - k),
            None => None::<int>,
        },
{
    assert forall|j: int| 0 <= j implies #[trigger] stands_at(s.skip(k), p, j) == stands_at(
        s,
        p,
        k + j,
    ) by {
        if j + p.len() <= s.len() - k {
            assert(s.skip(k).subrange(j, j + p.len()) == s.subrange(k + j, k + j + p.len()));
        }
    }
    if exists|i: int| is_next(s, p, k, i) {
        let i = choose|i: int| is_next(s, p, k, i);
        assert(is_next(s.skip(k), p, 0, i - k)) by {
            assert(stands_at(s.skip(k), p, i - k) == stands_at(s, p, k + (i - k)));
            assert forall|j: int| 0 <= j < i - k implies !stands_at(s.skip(k), p, j) by {
                assert(!stands_at(s, p, k + j));
            }
        }
        lemma_next_unique(s.skip(k), p, 0, i - k);
        lemma_next_unique(s, p, k, i);
    } else if exists|i: int| is_next(s.skip(k), p, 0, i) {
        let i = choose|i: int| is_next(s.skip(k), p, 0, i);
        assert(is_next(s, p, k, k + i)) by {
            assert(stands_at(s.skip(k), p, i) == stands_at(s, p, k + i));
            assert forall|j: int| k <= j < k + i implies !stands_at(s, p, j) by {
                assert(!stands_at(s.skip(k), p, j - k));
                assert(stands_at(s.skip(k), p, j - k) == stands_at(s, p, k + (j - k)));
            }
        }
    }
}

/// `s` with every occurrence of `p` replaced by `to`, left to right.
pub fn replace_all(s: &str, p: &str, to: &str) -> (r: String)
    ensures
        r@ == replaced_all(s@, p@, to@),
{
    let v = chars_of(s);
    let w = chars_of(p);
    let n = v.len();
    if w.len() == 0 {
        return s.to_owned();
    }
    let mut out = String::new();
    let mut pos: usize = 0;
    assert(v@.skip(0) == v@);
    assert(out@ + replaced_all(v@, w@, to@) == replaced_all(v@, w@, to@));
    while pos <= n
        invariant
            n == v.len(),
            v@ == s@,
            w@ == p@,
            w.len() > 0,
            0 <= pos <= n,
            out@ + replaced_all(v@.skip(pos as int), w@, to@) == replaced_all(v@, w@, to@),
        decreases n - pos,
    {
        proof {
            lemma_next_in_rest(v@, w@, pos as int);
        }
        match find_from(&v, &w, pos) {
            Some(i) => {
                let ghost rest = v@.skip(pos as int);
                let ghost k: int = i - pos;
                proof {
                    assert(stands_at(rest, w@, k) == stands_at(v@, w@, pos + k));
                    assert forall|j: int| 0 <= j < k implies !stands_at(rest, w@, j) by {
                        assert(!stands_at(v@, w@, pos + j));
                    }
                    assert(is_next(rest, w@, 0, k));
                    assert(rest.take(k) == v@.subrange(pos as int, i as int));
                    assert(rest.skip(k + w@.len()) == v@.skip(i + w@.len()));
                    assert(replaced_all(rest, w@, to@) == rest.take(k) + to@ + replaced_all(
                        v@.skip(i + w@.len()),
                        w@,
                        to@,
                    ));
                }
                let ghost before = out@;
                let head = text_of(&v, pos, i);
                out.append(head.as_str());
                out.append(to);
                pos = i + w.len();
                assert(out@ + replaced_all(v@.skip(pos as int), w@, to@) == before + replaced_all(
                    rest,
                    w@,
                    to@,
                ));
            },
            None => {
                let tail = text_of(&v, pos, n);
                assert(v@.skip(pos as int) == v@.subrange(pos as int, n as int));
                out.append(tail.as_str());
                return out;
            },
        }
    }
    out
}

}
