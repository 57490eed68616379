//! Media files: their ids, paths and addresses, and references to them in text.

use vstd::prelude::*;

use crate::encoding;
use crate::encoding::base64_encode;
use crate::json;
use crate::json::{Json, Members};
use crate::text;
use crate::text::{
    chars_of, find_from, join, join3, replace_all, same, split, split_once, starts_with,
    strip_prefix, strip_suffix, text_of, trim_end_matches,
};
use crate::time;
use crate::time::Timestamp;

verus! {

broadcast use json::lemma_json_view;

/// How many characters a media id has at most.
pub const MEDIA_ID_LEN: usize = 22;

/// A character of base64 as it stands in an address.
pub open spec fn url_safe_char(c: char) -> char {
    if c == '+' {
        '-'
    } else if c == '/' {
        '_'
    } else {
        c
    }
}

/// The id of the media file with a hash: the first characters of the hash, as
/// they stand in an address.
pub open spec fn media_id(hash: Seq<char>) -> Seq<char> {
    let safe = hash.map_values(|c: char| url_safe_char(c));
    if safe.len() > MEDIA_ID_LEN {
        safe.take(MEDIA_ID_LEN as int)
    } else {
        safe
    }
}

/// The id of the media file with a hash.
pub fn media_id_from_sha256_hash(sha256_hash: &str) -> (r: String)
    ensures
        r@ == media_id(sha256_hash@),
{
    let v = chars_of(sha256_hash);
    let ghost safe = v@.map_values(|c: char| url_safe_char(c));
    let n: usize = if v.len() > MEDIA_ID_LEN {
        MEDIA_ID_LEN
    } else {
        v.len()
    };
    let mut out = String::new();
    let mut i: usize = 0;
    while i < n
        invariant
            0 <= i <= n <= v@.len(),
            safe == v@.map_values(|c: char| url_safe_char(c)),
            out@ == safe.take(i as int),
        decreases n - i,
    {
        let c = v[i];
        if c == '+' {
            out.push('-');
        } else if c == '/' {
            out.push('_');
        } else {
            out.push(c);
        }
        i += 1;
        assert(safe.take(i as int) =~= safe.take(i - 1).push(safe[i - 1]));
    }
    assert(safe.take(safe.len() as int) =~= safe);
    out
}

/// No media id holds a character that means something in an address, and none
/// is longer than allowed.
pub proof fn lemma_media_id_is_url_safe(hash: Seq<char>)
    ensures
        media_id(hash).len() <= MEDIA_ID_LEN,
        !media_id(hash).contains('+'),
        !media_id(hash).contains('/'),
{
    assert forall|i: int| 0 <= i < media_id(hash).len() implies media_id(hash)[i] != '+'
        && media_id(hash)[i] != '/' by {
        assert(media_id(hash)[i] == url_safe_char(hash[i]));
    }
}

/// The extension of the files of a content type.
pub open spec fn extension(content_type: Seq<char>) -> Seq<char> {
    if content_type == "image/png"@ {
        "png"@
    } else if content_type == "image/jpeg"@ || content_type == "image/jpg"@ {
        "jpeg"@
    } else if content_type == "image/webp"@ {
        "webp"@
    } else if content_type == "image/gif"@ {
        "gif"@
    } else if content_type == "application/pdf"@ {
        "pdf"@
    } else if content_type == "audio/mpeg"@ || content_type == "audio/mp3"@ {
        "mp3"@
    } else if content_type == "audio/wav"@ {
        "wav"@
    } else {
        "bin"@
    }
}

/// The extension of the files of a content type.
pub fn extension_for_content_type(content_type: &str) -> (r: &'static str)
    ensures
        r@ == extension(content_type@),
{
    if same(content_type, "image/png") {
        "png"
    } else if same(content_type, "image/jpeg") || same(content_type, "image/jpg") {
        "jpeg"
    } else if same(content_type, "image/webp") {
        "webp"
    } else if same(content_type, "image/gif") {
        "gif"
    } else if same(content_type, "application/pdf") {
        "pdf"
    } else if same(content_type, "audio/mpeg") || same(content_type, "audio/mp3") {
        "mp3"
    } else if same(content_type, "audio/wav") {
        "wav"
    } else {
        "bin"
    }
}

/// `part` below the directory `base`, with slashes between names; a part that
/// begins with a slash stands for itself.
pub open spec fn joined_path(base: Seq<char>, part: Seq<char>) -> Seq<char> {
    if text::begins_with(part, "/"@) || base.len() == 0 {
        part
    } else if base.last() == '/' {
        base + part
    } else {
        base + "/"@ + part
    }
}

/// `part` below the directory `base`.
pub fn join_path(base: &str, part: &str) -> (r: String)
    ensures
        r@ == joined_path(base@, part@),
{
    if starts_with(part, "/") || base.is_empty() {
        return part.to_owned();
    }
    let v = chars_of(base);
    if v[v.len() - 1] == '/' {
        join(base, part)
    } else {
        join3(base, "/", part)
    }
}

/// The path of a media file: below the directory of its project, named by its
/// id and its content type.
pub open spec fn file_path(
    dir: Seq<char>,
    project: Seq<char>,
    id: Seq<char>,
    content_type: Seq<char>,
) -> Seq<char> {
    joined_path(joined_path(dir, project), id + "."@ + extension(content_type))
}

/// The path of a media file.
pub fn media_file_path(media_dir: &str, project_id: &str, media_id: &str, content_type: &str) -> (r:
    String)
    ensures
        r@ == file_path(media_dir@, project_id@, media_id@, content_type@),
{
    let name = join3(media_id, ".", extension_for_content_type(content_type));
    join_path(join_path(media_dir, project_id).as_str(), name.as_str())
}

/// The address of a media file below `base`.
pub open spec fn media_address(base: Seq<char>, id: Seq<char>, tail: Seq<char>) -> Seq<char> {
    text::trim_end_char(base, '/') + "/api/public/media/"@ + id + tail
}

/// The address from which a media file is read.
pub fn content_url(base: &str, media_id: &str) -> (r: String)
    ensures
        r@ == media_address(base@, media_id@, "/content"@),
{
    let mut url = join3(trim_end_matches(base, '/').as_str(), "/api/public/media/", media_id);
    url.append("/content");
    url
}

/// The address to which a media file is sent.
pub fn upload_url(base: &str, media_id: &str) -> (r: String)
    ensures
        r@ == media_address(base@, media_id@, "/upload"@),
{
    let mut url = join3(trim_end_matches(base, '/').as_str(), "/api/public/media/", media_id);
    url.append("/upload");
    url
}

/// The greatest number of hours that a duration can hold.
pub const MAX_DURATION_HOURS: i64 = 2_562_047_788_015;

/// The instant `hours` hours after `now`, as text, if the calendar holds it.
pub fn url_expiry_at(now: &Timestamp, hours: i64) -> (r: Option<String>)
    requires
        -MAX_DURATION_HOURS <= hours <= MAX_DURATION_HOURS,
    ensures
        match time::shifted(now@, hours * time::SECONDS_PER_HOUR) {
            Some(t) => r matches Some(s) && s@ == time::rfc3339_name(t.0, t.1),
            None => r is None,
        },
{
    let seconds: i64 = hours * time::SECONDS_PER_HOUR;
    match now.plus_seconds(seconds) {
        Some(t) => Some(t.to_rfc3339()),
        None => None,
    }
}

/// The instant `hours` hours from now, as text, if the calendar holds it. It holds
/// every instant from the start of the calendar up to now.
pub fn url_expiry_rfc3339(hours: i64) -> (r: Option<String>)
    requires
        -MAX_DURATION_HOURS <= hours <= MAX_DURATION_HOURS,
    ensures
        exists|now: Timestamp|
            time::on_clock(now@) && match #[trigger] time::shifted(
                now@,
                hours * time::SECONDS_PER_HOUR,
            ) {
                Some(t) => r matches Some(s) && s@ == time::rfc3339_name(t.0, t.1),
                None => r is None,
            },
        time::FIRST_SECOND <= hours * time::SECONDS_PER_HOUR <= 0 ==> r is Some,
        hours * time::SECONDS_PER_HOUR > time::LAST_SECOND ==> r is None,
{
    let now = Timestamp::now();
    url_expiry_at(&now, hours)
}

/// How a reference to a media file begins.
pub const REFERENCE_START: &'static str = "@@@langfuseMedia:";

/// How a reference to a media file ends.
pub const REFERENCE_END: &'static str = "@@@";

/// A reference to a media file.
#[derive(Debug)]
pub struct ParsedMediaReference {
    pub media_id: String,
}

/// Whether every part holds an equals sign.
pub open spec fn all_pairs(parts: Seq<Seq<char>>) -> bool {
    forall|i: int|
        0 <= i < parts.len() ==> text::cut_at_first(#[trigger] parts[i], '=') is Some
}

/// What stands behind the equals sign of the last part that is an id.
pub open spec fn last_id(parts: Seq<Seq<char>>) -> Option<Seq<char>>
    decreases parts.len(),
{
    if parts.len() == 0 {
        None
    } else {
        match text::cut_at_first(parts.last(), '=') {
            Some((k, v)) => if k == "id"@ {
                Some(v)
            } else {
                last_id(parts.drop_last())
            },
            None => last_id(parts.drop_last()),
        }
    }
}

/// The id that a reference names: between its beginning and its end stand keys
/// with values, and one of the keys is `id`.
pub open spec fn referenced_id(s: Seq<char>) -> Option<Seq<char>> {
    match text::after_prefix(s, REFERENCE_START@) {
        None => None,
        Some(rest) => match text::before_suffix(rest, REFERENCE_END@) {
            None => None,
            Some(body) => {
                let parts = text::split_on(body, '|');
                if all_pairs(parts) {
                    last_id(parts)
                } else {
                    None
                }
            },
        },
    }
}

/// The media file that a reference names.
pub fn parse_media_reference(reference: &str) -> (r: Option<ParsedMediaReference>)
    ensures
        match r {
            Some(p) => referenced_id(reference@) == Some(p.media_id@),
            None => referenced_id(reference@) is None,
        },
{
    let rest = match strip_prefix(reference, REFERENCE_START) {
        Some(rest) => rest,
        None => {
            return None;
        },
    };
    let body = match strip_suffix(rest.as_str(), REFERENCE_END) {
        Some(body) => body,
        None => {
            return None;
        },
    };
    let pieces = split(body.as_str(), '|');
    let ghost parts = text::texts(pieces@);
    let mut found: Option<String> = None;
    let mut i: usize = 0;
    assert(parts.take(0) =~= Seq::<Seq<char>>::empty());
    while i < pieces.len()
        invariant
            0 <= i <= pieces@.len(),
            parts == text::texts(pieces@),
            referenced_id(reference@) == if all_pairs(parts) {
                last_id(parts)
            } else {
                None
            },
            all_pairs(parts.take(i as int)),
            text::opt_text(found) == last_id(parts.take(i as int)),
        decreases pieces.len() - i,
    {
        assert(parts[i as int] == pieces@[i as int]@);
        assert(parts.take(i + 1).drop_last() =~= parts.take(i as int));
        assert(parts.take(i + 1).last() == parts[i as int]);
        match split_once(pieces[i].as_str(), '=') {
            Some((k, v)) => {
                assert forall|j: int| 0 <= j < i + 1 implies text::cut_at_first(
                    #[trigger] parts.take(i + 1)[j],
                    '=',
                ) is Some by {
                    if j < i {
                        assert(parts.take(i as int)[j] == parts.take(i + 1)[j]);
                    }
                }
                if same(k.as_str(), "id") {
                    found = Some(v);
                }
            },
            None => {
                assert(!all_pairs(parts)) by {
                    assert(text::cut_at_first(parts[i as int], '=') is None);
                }
                return None;
            },
        }
        i += 1;
    }
    assert(parts.take(parts.len() as int) =~= parts);
    match found {
        Some(media_id) => Some(ParsedMediaReference { media_id }),
        None => None,
    }
}

/// The references in a text from place `pos` on, in their order: from a
/// beginning to the next end.
pub open spec fn references_from(s: Seq<char>, pos: int) -> Seq<Seq<char>>
    decreases s.len() - pos,
{
    match text::next_place(s, REFERENCE_START@, pos) {
        None => Seq::empty(),
        Some(i) => {
            let start = i + REFERENCE_START@.len();
            match text::next_place(s, REFERENCE_END@, start) {
                None => Seq::empty(),
                Some(j) => {
                    let end = j + REFERENCE_END@.len();
                    if 0 <= pos && pos <= i && start <= j && pos < end <= s.len() {
                        seq![s.subrange(i, end)] + references_from(s, end)
                    } else {
                        Seq::empty()
                    }
                },
            }
        },
    }
}

/// The references in a text, in their order.
pub fn find_media_references(s: &str) -> (r: Vec<String>)
    ensures
        text::texts(r@) == references_from(s@, 0),
{
    let v = chars_of(s);
    let n = v.len();
    let start = chars_of(REFERENCE_START);
    let end = chars_of(REFERENCE_END);
    proof {
        reveal_strlit("@@@langfuseMedia:");
        reveal_strlit("@@@");
    }
    let mut out: Vec<String> = Vec::new();
    let mut pos: usize = 0;
    assert(text::texts(out@) + references_from(v@, 0) =~= references_from(v@, 0));
    loop
        invariant
            v@ == s@,
            n == v@.len(),
            start@ == REFERENCE_START@,
            end@ == REFERENCE_END@,
            start@.len() == 17,
            end@.len() == 3,
            0 <= pos <= v@.len(),
            text::texts(out@) + references_from(v@, pos as int) == references_from(v@, 0),
        decreases v@.len() - pos,
    {
        let i = match find_from(&v, &start, pos) {
            Some(i) => i,
            None => {
                assert(references_from(v@, pos as int) =~= Seq::<Seq<char>>::empty());
                assert(text::texts(out@) =~= references_from(v@, 0));
                return out;
            },
        };
        assert(text::stands_at(v@, start@, i as int));
        let body = i + start.len();
        let j = match find_from(&v, &end, body) {
            Some(j) => j,
            None => {
                assert(references_from(v@, pos as int) =~= Seq::<Seq<char>>::empty());
                assert(text::texts(out@) =~= references_from(v@, 0));
                return out;
            },
        };
        assert(text::stands_at(v@, end@, j as int));
        let stop = j + end.len();
        let reference = text_of(&v, i, stop);
        let ghost before = text::texts(out@);
        out.push(reference);
        proof {
            assert(text::texts(out@) =~= before.push(v@.subrange(i as int, stop as int)));
            assert(references_from(v@, pos as int) == seq![v@.subrange(i as int, stop as int)]
                + references_from(v@, stop as int));
            assert(before.push(v@.subrange(i as int, stop as int)) + references_from(
                v@,
                stop as int,
            ) =~= before + references_from(v@, pos as int));
        }
        pos = stop;
    }
}

/// A media file that was loaded: its content type and its bytes.
pub ghost struct Loaded {
    pub content_type: Seq<char>,
    pub bytes: Seq<u8>,
}

/// What was loaded, if anything.
pub open spec fn loaded(o: Option<(String, Vec<u8>)>) -> Option<Loaded> {
    match o {
        Some((t, b)) => Some(Loaded { content_type: t@, bytes: b@ }),
        None => None,
    }
}

/// A media file as an address that holds it.
pub open spec fn data_uri(l: Loaded) -> Seq<char> {
    "data:"@ + l.content_type + ";base64,"@ + encoding::base64_text(l.bytes)
}

/// Whether the base64 text of bytes fits into memory.
pub open spec fn encodable(bytes: Seq<u8>) -> bool {
    (bytes.len() + 2) / 3 * 4 <= isize::MAX
}

/// A text in which each reference is replaced, wherever it stands, by what was
/// loaded for it, if anything.
pub open spec fn substituted(s: Seq<char>, refs: Seq<Seq<char>>, loads: Seq<Option<Loaded>>) -> Seq<
    char,
>
    decreases refs.len(),
{
    if refs.len() == 0 {
        s
    } else {
        let head = substituted(s, refs.drop_last(), loads.take(refs.len() - 1));
        match loads[refs.len() - 1] {
            Some(l) => text::replaced_all(head, refs.last(), data_uri(l)),
            None => head,
        }
    }
}

/// Replaces a reference, wherever it stands, by a media file.
pub fn substitute(out: &str, reference: &str, content_type: &str, bytes: &Vec<u8>) -> (r: String)
    requires
        encodable(bytes@),
    ensures
        r@ == text::replaced_all(
            out@,
            reference@,
            data_uri(Loaded { content_type: content_type@, bytes: bytes@ }),
        ),
{
    let encoded = base64_encode(bytes);
    let mut uri = join3("data:", content_type, ";base64,");
    uri.append(encoded.as_str());
    replace_all(out, reference, uri.as_str())
}

/// Whether `l` is what a loader may give for the id that a reference names, or
/// nothing where it names none.
pub open spec fn may_load<F: Fn(&str) -> Option<(String, Vec<u8>)>>(
    load_bytes: F,
    reference: Seq<char>,
    l: Option<Loaded>,
) -> bool {
    match referenced_id(reference) {
        None => l is None,
        Some(id) => exists|name: &str, got: Option<(String, Vec<u8>)>|
            name@ == id && #[trigger] call_ensures(load_bytes, (name,), got) && l == loaded(got),
    }
}

/// Whether `loads` is what a loader may give for each of the references.
pub open spec fn are_loads<F: Fn(&str) -> Option<(String, Vec<u8>)>>(
    load_bytes: F,
    refs: Seq<Seq<char>>,
    loads: Seq<Option<Loaded>>,
) -> bool {
    &&& loads.len() == refs.len()
    &&& forall|i: int| 0 <= i < refs.len() ==> may_load(load_bytes, refs[i], #[trigger] loads[i])
}

/// Whether `out` is `s` with its references replaced by what a loader may give
/// for them.
pub open spec fn is_resolved_text<F: Fn(&str) -> Option<(String, Vec<u8>)>>(
    load_bytes: F,
    s: Seq<char>,
    out: Seq<char>,
) -> bool {
    exists|loads: Seq<Option<Loaded>>|
        {
            &&& #[trigger] are_loads(load_bytes, references_from(s, 0), loads)
            &&& out == substituted(s, references_from(s, 0), loads)
        }
}

/// Whether a loader can be asked for any id, and gives bytes whose base64 text
/// fits into memory.
pub open spec fn usable_loader<F: Fn(&str) -> Option<(String, Vec<u8>)>>(load_bytes: F) -> bool {
    &&& forall|name: &str| #[trigger] call_requires(load_bytes, (name,))
    &&& forall|name: &str, got: Option<(String, Vec<u8>)>| #[trigger]
        call_ensures(load_bytes, (name,), got) ==> (got matches Some(l) ==> encodable(l.1@))
}

/// Replaces the references in a text by the media files that a loader gives for
/// them; where it gives none, the reference stays.
pub fn resolve_media_references_in_str<F: Fn(&str) -> Option<(String, Vec<u8>)>>(
    s: &str,
    load_bytes: &F,
) -> (r: String)
    requires
        usable_loader(*load_bytes),
    ensures
        is_resolved_text(*load_bytes, s@, r@),
{
    let mut out = s.to_owned();
    let references = find_media_references(s);
    let ghost refs = references_from(s@, 0);
    let ghost mut loads: Seq<Option<Loaded>> = Seq::empty();
    let mut i: usize = 0;
    assert(refs.take(0) =~= Seq::<Seq<char>>::empty());
    while i < references.len()
        invariant
            0 <= i <= references@.len(),
            usable_loader(*load_bytes),
            text::texts(references@) == refs,
            loads.len() == i,
            forall|j: int| 0 <= j < i ==> may_load(*load_bytes, refs[j], #[trigger] loads[j]),
            out@ == substituted(s@, refs.take(i as int), loads),
        decreases references.len() - i,
    {
        let reference = references[i].as_str();
        assert(refs[i as int] == reference@);
        let ghost before = loads;
        let ghost t = refs.take(i + 1);
        assert(t.drop_last() =~= refs.take(i as int));
        assert(t.last() == reference@);
        match parse_media_reference(reference) {
            None => {
                proof {
                    loads = loads.push(None);
                    assert(loads.take(i as int) =~= before);
                }
            },
            Some(parsed) => {
                let got = load_bytes(parsed.media_id.as_str());
                proof {
                    loads = loads.push(loaded(got));
                    assert(loads.take(i as int) =~= before);
                    assert(may_load(*load_bytes, refs[i as int], loaded(got)));
                }
                match got {
                    Some((content_type, bytes)) => {
                        out = substitute(out.as_str(), reference, content_type.as_str(), &bytes);
                    },
                    None => {},
                }
            },
        }
        proof {
            assert forall|j: int| 0 <= j < i + 1 implies may_load(
                *load_bytes,
                refs[j],
                #[trigger] loads[j],
            ) by {
                if j < i {
                    assert(loads[j] == before[j]);
                }
            }
        }
        i += 1;
    }
    assert(refs.take(refs.len() as int) =~= refs);
    assert(are_loads(*load_bytes, refs, loads));
    out
}

/// Whether `out` is a JSON value with the references in its texts replaced, down
/// to a depth of `max_depth`; what lies deeper stays.
pub open spec fn is_resolved<F: Fn(&str) -> Option<(String, Vec<u8>)>>(
    load_bytes: F,
    v: json::JsonModel,
    out: json::JsonModel,
    depth: nat,
    max_depth: nat,
) -> bool
    decreases v,
{
    if depth > max_depth {
        out == v
    } else {
        match v {
            json::JsonModel::Text(s) => out matches json::JsonModel::Text(t) && is_resolved_text(
                load_bytes,
                s,
                t,
            ),
            json::JsonModel::Array(a) => out matches json::JsonModel::Array(b) && a.len() == b.len()
                && forall|i: int|
                #![trigger a[i]]
                0 <= i < a.len() ==> is_resolved(load_bytes, a[i], b[i], depth + 1, max_depth),
            json::JsonModel::Object(a) => out matches json::JsonModel::Object(b) && a.len()
                == b.len() && forall|i: int|
                #![trigger a[i]]
                0 <= i < a.len() ==> a[i].0 == b[i].0 && is_resolved(
                    load_bytes,
                    a[i].1,
                    b[i].1,
                    depth + 1,
                    max_depth,
                ),
            _ => out == v,
        }
    }
}

/// Replaces the references in the texts of a JSON value by the media files that
/// a loader gives for them, down to a depth of `max_depth`.
pub fn resolve_media_references_in_json<F: Fn(&str) -> Option<(String, Vec<u8>)>>(
    value: &Json,
    load_bytes: &F,
    max_depth: usize,
) -> (r: Json)
    requires
        usable_loader(*load_bytes),
    ensures
        is_resolved(*load_bytes, value@, r@, 0, max_depth as nat),
{
    walk(value, load_bytes, 0, max_depth)
}

/// Replaces the references in the texts of a part of a JSON value that lies at
/// the depth `depth`.
fn walk<F: Fn(&str) -> Option<(String, Vec<u8>)>>(
    value: &Json,
    load_bytes: &F,
    depth: usize,
    max_depth: usize,
) -> (r: Json)
    requires
        usable_loader(*load_bytes),
    ensures
        is_resolved(*load_bytes, value@, r@, depth as nat, max_depth as nat),
    decreases value,
{
    if depth > max_depth {
        return value.copy();
    }
    match value {
        Json::Text(s) => Json::Text(resolve_media_references_in_str(s.as_str(), load_bytes)),
        Json::Array(v) => {
            let ghost a = json::models(v@);
            let mut out: Vec<Json> = Vec::new();
            let mut i: usize = 0;
            while i < v.len()
                invariant
                    0 <= i <= v@.len(),
                    usable_loader(*load_bytes),
                    depth <= max_depth,
                    *value == Json::Array(*v),
                    a == json::models(v@),
                    out@.len() == i,
                    forall|j: int|
                        #![trigger a[j]]
                        0 <= j < i ==> is_resolved(
                            *load_bytes,
                            a[j],
                            json::models(out@)[j],
                            (depth + 1) as nat,
                            max_depth as nat,
                        ),
                decreases v.len() - i,
            {
                assert(decreases_to!(value => value->Array_0));
                assert(decreases_to!(v@ => v@[i as int]));
                assert(decreases_to!(value => v@[i as int]));
                let ghost before = out@;
                let item = if depth == max_depth {
                    v[i].copy()
                } else {
                    walk(&v[i], load_bytes, depth + 1, max_depth)
                };
                out.push(item);
                assert(json::models(out@) =~= json::models(before).push(item@));
                assert(a[i as int] == v@[i as int]@);
                i += 1;
            }
            Json::Array(out)
        },
        Json::Object(m) => {
            let ghost a = m@;
            let mut out = Members::new();
            let mut i: usize = 0;
            let n = m.len();
            while i < n
                invariant
                    0 <= i <= n,
                    n == m@.len(),
                    json::keys_ascend(m@),
                    usable_loader(*load_bytes),
                    depth <= max_depth,
                    *value == Json::Object(*m),
                    a == m@,
                    out@.len() == i,
                    forall|j: int|
                        #![trigger a[j]]
                        0 <= j < i ==> a[j].0 == out@[j].0 && is_resolved(
                            *load_bytes,
                            a[j].1,
                            out@[j].1,
                            (depth + 1) as nat,
                            max_depth as nat,
                        ),
                decreases n - i,
            {
                assert(decreases_to!(value => value->Object_0));
                let child = m.value_at(i);
                assert(decreases_to!(value => *child));
                let ghost before = out@;
                let item = if depth == max_depth {
                    child.copy()
                } else {
                    walk(child, load_bytes, depth + 1, max_depth)
                };
                proof {
                    if i > 0 {
                        assert(a[i - 1].0 == before[i - 1].0);
                        assert(text::text_lt(a[i - 1].0, a[i as int].0));
                        text::lemma_text_lt_total(a[i - 1].0, a[i as int].0);
                        assert(before.last() == before[i - 1]);
                    }
                }
                out.insert(m.key_at(i).to_owned(), item);
                assert(out@ =~= before.push((a[i as int].0, item@)));
                i += 1;
            }
            Json::Object(out)
        },
        _ => value.copy(),
    }
}

/// Where nothing is loaded, a text stays as it is.
pub proof fn lemma_nothing_loaded(s: Seq<char>, refs: Seq<Seq<char>>, loads: Seq<Option<Loaded>>)
    requires
        loads.len() == refs.len(),
        forall|i: int| 0 <= i < loads.len() ==> (#[trigger] loads[i]) is None,
    ensures
        substituted(s, refs, loads) == s,
    decreases refs.len(),
{
    if refs.len() > 0 {
        let shorter = loads.take(refs.len() - 1);
        assert forall|i: int| 0 <= i < shorter.len() implies (#[trigger] shorter[i]) is None by {
            assert(shorter[i] == loads[i]);
        }
        lemma_nothing_loaded(s, refs.drop_last(), shorter);
    }
}

/// A text without a reference stays as it is, whatever the loader gives.
pub proof fn lemma_no_reference_no_change<F: Fn(&str) -> Option<(String, Vec<u8>)>>(
    load_bytes: F,
    s: Seq<char>,
    out: Seq<char>,
)
    requires
        is_resolved_text(load_bytes, s, out),
        text::next_place(s, REFERENCE_START@, 0) is None,
    ensures
        out == s,
{
    assert(references_from(s, 0) =~= Seq::<Seq<char>>::empty());
}

/// Every reference that is found begins and ends as a reference does.
pub proof fn lemma_references_look_right(s: Seq<char>, pos: int)
    ensures
        forall|i: int|
            0 <= i < references_from(s, pos).len() ==> text::begins_with(
                #[trigger] references_from(s, pos)[i],
                REFERENCE_START@,
            ) && text::finishes_with(references_from(s, pos)[i], REFERENCE_END@),
    decreases s.len() - pos,
{
    let refs = references_from(s, pos);
    if refs.len() > 0 {
        let i = text::next_place(s, REFERENCE_START@, pos)->0;
        let start = i + REFERENCE_START@.len();
        let j = text::next_place(s, REFERENCE_END@, start)->0;
        let end = j + REFERENCE_END@.len();
        lemma_references_look_right(s, end);
        assert(text::is_next(s, REFERENCE_START@, pos, i));
        assert(text::is_next(s, REFERENCE_END@, start, j));
        let first = s.subrange(i, end);
        assert(first.take(REFERENCE_START@.len() as int) =~= s.subrange(i, start));
        assert(first.skip(first.len() - REFERENCE_END@.len()) =~= s.subrange(j, end));
        assert forall|k: int| 0 <= k < refs.len() implies text::begins_with(
            #[trigger] refs[k],
            REFERENCE_START@,
        ) && text::finishes_with(refs[k], REFERENCE_END@) by {
            if k == 0 {
                assert(refs[0] == first);
            } else {
                assert(refs[k] == references_from(s, end)[k - 1]);
            }
        }
    }
}

}
