//! Laws of media files: their ids, names and addresses, the references to them
//! and what is told and kept of them.

use vstd::prelude::*;

use crate::encoding;
use crate::error;
use crate::json;
use crate::media;
use crate::media_store;
use crate::memory_db;
use crate::rows;
use crate::text;
use crate::text_laws;
use crate::time;
use crate::time::Timestamp;

verus! {

/// The id of a file is made of the first 22 characters of its hash, or of all of
/// them where there are fewer: a plus sign is written as a minus sign, a slash as
/// an underscore, and any other character as it is.
pub proof fn lemma_id_of_hash(hash: Seq<char>)
    ensures
        hash.len() >= 22 ==> media::media_id(hash).len() == 22,
        hash.len() < 22 ==> media::media_id(hash).len() == hash.len(),
        forall|i: int|
            0 <= i < media::media_id(hash).len() ==> {
                let c = #[trigger] media::media_id(hash)[i];
                &&& hash[i] == '+' ==> c == '-'
                &&& hash[i] == '/' ==> c == '_'
                &&& hash[i] != '+' && hash[i] != '/' ==> c == hash[i]
            },
{
    assert forall|i: int| 0 <= i < media::media_id(hash).len() implies #[trigger] media::media_id(
        hash,
    )[i] == media::url_safe_char(hash[i]) by {}
}

/// The extensions of the content types that are known; any other has `bin`.
pub proof fn lemma_extensions(t: Seq<char>)
    ensures
        media::extension("image/png"@) == "png"@,
        media::extension("image/jpeg"@) == "jpeg"@,
        media::extension("image/jpg"@) == "jpeg"@,
        media::extension("image/webp"@) == "webp"@,
        media::extension("image/gif"@) == "gif"@,
        media::extension("application/pdf"@) == "pdf"@,
        media::extension("audio/mpeg"@) == "mp3"@,
        media::extension("audio/mp3"@) == "mp3"@,
        media::extension("audio/wav"@) == "wav"@,
        media::extension(t) != "bin"@ ==> {
            ||| t == "image/png"@
            ||| t == "image/jpeg"@
            ||| t == "image/jpg"@
            ||| t == "image/webp"@
            ||| t == "image/gif"@
            ||| t == "application/pdf"@
            ||| t == "audio/mpeg"@
            ||| t == "audio/mp3"@
            ||| t == "audio/wav"@
        },
{
    reveal_strlit("image/png");
    reveal_strlit("image/jpeg");
    reveal_strlit("image/jpg");
    reveal_strlit("image/webp");
    reveal_strlit("image/gif");
    reveal_strlit("application/pdf");
    reveal_strlit("audio/mpeg");
    reveal_strlit("audio/mp3");
    reveal_strlit("audio/wav");
    assert("image/png"@.len() == 9 && "image/png"@[0] == 'i' && "image/png"@[6] == 'p');
    assert("image/jpg"@.len() == 9 && "image/jpg"@[0] == 'i' && "image/jpg"@[6] == 'j');
    assert("image/gif"@.len() == 9 && "image/gif"@[0] == 'i' && "image/gif"@[6] == 'g');
    assert("audio/mp3"@.len() == 9 && "audio/mp3"@[0] == 'a' && "audio/mp3"@[6] == 'm');
    assert("audio/wav"@.len() == 9 && "audio/wav"@[0] == 'a' && "audio/wav"@[6] == 'w');
    assert("image/jpeg"@.len() == 10 && "image/jpeg"@[0] == 'i' && "image/jpeg"@[6] == 'j');
    assert("image/webp"@.len() == 10 && "image/webp"@[0] == 'i' && "image/webp"@[6] == 'w');
    assert("audio/mpeg"@.len() == 10 && "audio/mpeg"@[0] == 'a');
    assert("application/pdf"@.len() == 15);
}

/// A path below a directory has one slash between the two, whether the directory
/// is written with one at its end or not.
pub proof fn lemma_path_below(dir: Seq<char>, part: Seq<char>)
    requires
        dir.len() > 0,
        dir.last() != '/',
        part.len() > 0 ==> part[0] != '/',
    ensures
        media::joined_path(dir, part) == dir + "/"@ + part,
        media::joined_path(dir + "/"@, part) == dir + "/"@ + part,
{
    reveal_strlit("/");
    let base = dir + "/"@;
    assert(base.last() == '/');
    if text::begins_with(part, "/"@) {
        assert(part.take(1)[0] == part[0]);
    }
}

/// A part that begins with a slash stands for itself, and so does one below a
/// directory without a name.
pub proof fn lemma_path_from_the_root(dir: Seq<char>, part: Seq<char>)
    ensures
        media::joined_path(dir, "/"@ + part) == "/"@ + part,
        media::joined_path(Seq::empty(), part) == part,
{
    let p = "/"@ + part;
    assert(p.take("/"@.len() as int) == "/"@);
}

/// A file stands in the directory of its project, under its id with the extension
/// of its type.
pub proof fn lemma_file_path(
    dir: Seq<char>,
    project: Seq<char>,
    id: Seq<char>,
    content_type: Seq<char>,
)
    requires
        dir.len() > 0,
        dir.last() != '/',
        project.len() > 0,
        project[0] != '/',
        project.last() != '/',
        id.len() > 0,
        id[0] != '/',
    ensures
        media::file_path(dir, project, id, content_type) == dir + "/"@ + project + "/"@ + (id
            + "."@ + media::extension(content_type)),
{
    let name = id + "."@ + media::extension(content_type);
    assert(name[0] == id[0]);
    lemma_path_below(dir, project);
    let below = dir + "/"@ + project;
    assert(below.last() == project.last());
    lemma_path_below(below, name);
}

/// The address of a file is the server's, without slashes at its end, and then
/// the route of the file.
pub proof fn lemma_media_address(base: Seq<char>, id: Seq<char>, tail: Seq<char>)
    ensures
        base.len() == 0 || base.last() != '/' ==> media::media_address(base, id, tail) == base
            + "/api/public/media/"@ + id + tail,
        media::media_address(base.push('/'), id, tail) == media::media_address(base, id, tail),
{
    assert(base.push('/').drop_last() == base);
}

/// An address holds for one hour.
pub proof fn lemma_address_holds_an_hour()
    ensures
        media_store::URL_HOURS * time::SECONDS_PER_HOUR == 60 * 60,
{
}

/// The reference that holds `body`.
pub open spec fn reference(body: Seq<char>) -> Seq<char> {
    "@@@langfuseMedia:"@ + body + "@@@"@
}

/// A text is taken for a reference only where it begins and ends as one.
pub proof fn lemma_only_references(s: Seq<char>)
    ensures
        media::referenced_id(s) is Some ==> exists|body: Seq<char>| s == #[trigger] reference(body),
{
    if media::referenced_id(s) is Some {
        let rest = text::after_prefix(s, "@@@langfuseMedia:"@)->0;
        let body = text::before_suffix(rest, "@@@"@)->0;
        text_laws::lemma_affixes(s, "@@@langfuseMedia:"@, rest);
        text_laws::lemma_affixes(rest, "@@@"@, body);
        assert(s == reference(body));
    }
}

proof fn lemma_reference_body(body: Seq<char>)
    ensures
        media::referenced_id(reference(body)) == if media::all_pairs(text::split_on(body, '|')) {
            media::last_id(text::split_on(body, '|'))
        } else {
            None
        },
{
    let s = reference(body);
    let rest = body + "@@@"@;
    assert(s == "@@@langfuseMedia:"@ + rest);
    text_laws::lemma_affixes(s, "@@@langfuseMedia:"@, rest);
    text_laws::lemma_affixes(rest, "@@@"@, body);
}

/// A reference with one part names an id if and only if that part is `id` with a
/// value, and then that value.
pub proof fn lemma_reference_of_one_part(key: Seq<char>, value: Seq<char>, part: Seq<char>)
    requires
        !key.contains('='),
        !key.contains('|'),
        !value.contains('|'),
        !part.contains('='),
        !part.contains('|'),
    ensures
        key == "id"@ ==> media::referenced_id(reference(key + seq!['='] + value)) == Some(value),
        key != "id"@ ==> media::referenced_id(reference(key + seq!['='] + value)) is None,
        media::referenced_id(reference(part)) is None,
{
    let pair = key + seq!['='] + value;
    lemma_no_bar(key, value);
    text_laws::lemma_one_piece(pair, '|');
    text_laws::lemma_one_piece(part, '|');
    text_laws::lemma_cut(part, key, value, '=');
    lemma_reference_body(pair);
    lemma_reference_body(part);
    let one = seq![pair];
    assert(one.last() == pair);
    assert(one.drop_last() == Seq::<Seq<char>>::empty());
    assert(media::last_id(one.drop_last()) is None);
    assert(media::all_pairs(one));
    let other = seq![part];
    assert(text::cut_at_first(other[0], '=') is None);
    assert(!media::all_pairs(other));
}

proof fn lemma_no_bar(key: Seq<char>, value: Seq<char>)
    requires
        !key.contains('|'),
        !value.contains('|'),
    ensures
        !(key + seq!['='] + value).contains('|'),
{
    let pair = key + seq!['='] + value;
    assert forall|i: int| 0 <= i < pair.len() implies pair[i] != '|' by {
        if i < key.len() {
            assert(pair[i] == key[i]);
        } else if i > key.len() {
            assert(pair[i] == value[i - key.len() - 1]);
        }
    }
}

/// One part more at the end of a reference: an `id` with a value is the one that
/// counts; another key with a value changes nothing of what is named; and a part
/// that is no key with a value makes it name nothing.
pub proof fn lemma_reference_of_more_parts(
    body: Seq<char>,
    key: Seq<char>,
    value: Seq<char>,
    part: Seq<char>,
)
    requires
        !key.contains('='),
        !key.contains('|'),
        !value.contains('|'),
        !part.contains('='),
        !part.contains('|'),
    ensures
        ({
            let longer = reference(body + seq!['|'] + (key + seq!['='] + value));
            &&& key == "id"@ && media::referenced_id(reference(body)) is Some
                ==> media::referenced_id(longer) == Some(value)
            &&& key != "id"@ ==> media::referenced_id(longer) == media::referenced_id(
                reference(body),
            )
            &&& media::referenced_id(reference(body + seq!['|'] + part)) is None
        }),
{
    let pair = key + seq!['='] + value;
    lemma_no_bar(key, value);
    text_laws::lemma_one_piece(pair, '|');
    text_laws::lemma_one_piece(part, '|');
    text_laws::lemma_cut(part, key, value, '=');
    text_laws::lemma_pieces_joined(body, '|', pair);
    text_laws::lemma_pieces_joined(body, '|', part);
    lemma_reference_body(body);
    lemma_reference_body(body + seq!['|'] + pair);
    lemma_reference_body(body + seq!['|'] + part);
    let parts = text::split_on(body, '|');
    let longer = parts + seq![pair];
    let broken = parts + seq![part];
    assert(longer.last() == pair);
    assert(longer.drop_last() == parts);
    assert(text::cut_at_first(broken[parts.len() as int], '=') is None);
    assert(!media::all_pairs(broken));
    if media::all_pairs(parts) {
        assert forall|i: int| 0 <= i < longer.len() implies text::cut_at_first(
            #[trigger] longer[i],
            '=',
        ) is Some by {
            if i < parts.len() {
                assert(longer[i] == parts[i]);
            }
        }
    } else {
        let i = choose|i: int|
            0 <= i < parts.len() && text::cut_at_first(#[trigger] parts[i], '=') is None;
        assert(longer[i] == parts[i]);
        assert(!media::all_pairs(longer));
    }
}

/// The references in a text are found from left to right: from the next place at
/// which a reference begins to the next place behind that at which one ends, and
/// then on from there. Where none begins, or none ends, none is found.
pub proof fn lemma_references_found(s: Seq<char>, pos: int, i: int, j: int)
    requires
        0 <= pos <= i,
        text::is_next(s, "@@@langfuseMedia:"@, pos, i),
        text::is_next(s, "@@@"@, i + 17, j),
    ensures
        media::references_from(s, pos) == seq![s.subrange(i, j + 3)] + media::references_from(
            s,
            j + 3,
        ),
{
    reveal_strlit("@@@langfuseMedia:");
    reveal_strlit("@@@");
    text::lemma_next_unique(s, "@@@langfuseMedia:"@, pos, i);
    text::lemma_next_unique(s, "@@@"@, i + 17, j);
}

/// A text holds no reference from a place on if none begins there or behind it.
pub proof fn lemma_no_references(s: Seq<char>, pos: int)
    requires
        forall|i: int| pos <= i ==> !#[trigger] text::stands_at(s, "@@@langfuseMedia:"@, i),
    ensures
        media::references_from(s, pos) == Seq::<Seq<char>>::empty(),
{
    if exists|i: int| text::is_next(s, "@@@langfuseMedia:"@, pos, i) {
        let i = choose|i: int| text::is_next(s, "@@@langfuseMedia:"@, pos, i);
        assert(text::stands_at(s, "@@@langfuseMedia:"@, i));
    }
}

/// A reference for which a file was loaded is replaced by an address that holds
/// the file's type and its bytes in base64; one for which nothing was loaded
/// stays as it is.
pub proof fn lemma_reference_replaced(
    a: Seq<char>,
    r: Seq<char>,
    b: Seq<char>,
    l: media::Loaded,
)
    requires
        r.len() > 0,
        forall|i: int| 0 <= i < a.len() ==> !#[trigger] text::stands_at(a + r + b, r, i),
        forall|i: int| !#[trigger] text::stands_at(b, r, i),
    ensures
        media::substituted(a + r + b, seq![r], seq![Some(l)]) == a + ("data:"@ + l.content_type
            + ";base64,"@ + encoding::base64_text(l.bytes)) + b,
        media::substituted(a + r + b, seq![r], seq![None]) == a + r + b,
{
    let s = a + r + b;
    let refs = seq![r];
    assert(refs.drop_last() == Seq::<Seq<char>>::empty());
    assert(refs.last() == r);
    text_laws::lemma_all_replaced(s, a, r, b, media::data_uri(l));
    text_laws::lemma_all_replaced(b, a, r, b, media::data_uri(l));
    assert(media::substituted(s, refs.drop_last(), seq![Some(l)].take(0)) == s);
    assert(media::substituted(s, refs.drop_last(), seq![None::<media::Loaded>].take(0)) == s);
    assert(seq![Some(l)][0] == Some(l));
    assert(seq![None::<media::Loaded>][0] is None);
}

/// References are replaced one after the other.
pub proof fn lemma_references_in_turn(
    s: Seq<char>,
    refs: Seq<Seq<char>>,
    loads: Seq<Option<media::Loaded>>,
    r: Seq<char>,
    load: Option<media::Loaded>,
)
    requires
        loads.len() == refs.len(),
    ensures
        media::substituted(s, refs.push(r), loads.push(load)) == media::substituted(
            media::substituted(s, refs, loads),
            seq![r],
            seq![load],
        ),
{
    let x = refs.push(r);
    let y = loads.push(load);
    assert(x.drop_last() == refs);
    assert(y.take(x.len() - 1) == loads);
    assert(x.last() == r);
    let head = media::substituted(s, refs, loads);
    assert(seq![r].drop_last() == Seq::<Seq<char>>::empty());
    assert(media::substituted(head, seq![r].drop_last(), seq![load].take(0)) == head);
    assert(seq![r].last() == r);
    assert(seq![load][0] == load);
}

/// Nothing is loaded for what names no id.
pub proof fn lemma_nothing_to_load<F: Fn(&str) -> Option<(String, Vec<u8>)>>(
    load_bytes: F,
    refs: Seq<Seq<char>>,
    loads: Seq<Option<media::Loaded>>,
    i: int,
)
    requires
        media::are_loads(load_bytes, refs, loads),
        0 <= i < refs.len(),
    ensures
        media::referenced_id(refs[i]) is None ==> loads[i] is None,
        media::referenced_id(refs[i]) matches Some(id) ==> (loads[i] matches Some(l)
            ==> exists|name: &str, t: String, b: Vec<u8>|
            name@ == id && #[trigger] call_ensures(load_bytes, (name,), Some((t, b))) && l
                == (media::Loaded { content_type: t@, bytes: b@ })),
        loads.len() == refs.len(),
{
    assert(media::may_load(load_bytes, refs[i], loads[i]));
    if media::referenced_id(refs[i]) is Some && loads[i] is Some {
        let id = media::referenced_id(refs[i])->0;
        let (name, got) = choose|name: &str, got: Option<(String, Vec<u8>)>|
            name@ == id && #[trigger] call_ensures(load_bytes, (name,), got) && loads[i]
                == media::loaded(got);
        let (t, b) = got->0;
        assert(call_ensures(load_bytes, (name,), Some((t, b))));
    }
}

/// Whether a loader gives for every id what `files` says, and nothing else.
pub open spec fn gives<F: Fn(&str) -> Option<(String, Vec<u8>)>>(
    load_bytes: F,
    files: spec_fn(Seq<char>) -> Option<media::Loaded>,
) -> bool {
    forall|name: &str, got: Option<(String, Vec<u8>)>| #[trigger]
        call_ensures(load_bytes, (name,), got) ==> match got {
            Some((t, b)) => files(name@) == Some(
                media::Loaded { content_type: t@, bytes: b@ },
            ),
            None => files(name@) is None,
        }
}

/// In a text each reference is replaced by the file that the loader gives for the id
/// that it names; one that names no id, or an id for which the loader gives none,
/// stays.
pub proof fn lemma_text_resolved<F: Fn(&str) -> Option<(String, Vec<u8>)>>(
    load_bytes: F,
    files: spec_fn(Seq<char>) -> Option<media::Loaded>,
    s: Seq<char>,
    out: Seq<char>,
)
    requires
        media::is_resolved_text(load_bytes, s, out),
        gives(load_bytes, files),
    ensures
        ({
            let refs = media::references_from(s, 0);
            out == media::substituted(
                s,
                refs,
                Seq::new(
                    refs.len(),
                    |i: int|
                        match media::referenced_id(refs[i]) {
                            Some(id) => files(id),
                            None => None,
                        },
                ),
            )
        }),
{
    let refs = media::references_from(s, 0);
    let loads = choose|loads: Seq<Option<media::Loaded>>|
        {
            &&& #[trigger] media::are_loads(load_bytes, refs, loads)
            &&& out == media::substituted(s, refs, loads)
        };
    let due = Seq::new(
        refs.len(),
        |i: int|
            match media::referenced_id(refs[i]) {
                Some(id) => files(id),
                None => None,
            },
    );
    assert forall|i: int| 0 <= i < refs.len() implies #[trigger] loads[i] == due[i] by {
        assert(media::may_load(load_bytes, refs[i], loads[i]));
        if media::referenced_id(refs[i]) is Some {
            let id = media::referenced_id(refs[i])->0;
            let (name, got) = choose|name: &str, got: Option<(String, Vec<u8>)>|
                name@ == id && #[trigger] call_ensures(load_bytes, (name,), got) && loads[i]
                    == media::loaded(got);
            assert(call_ensures(load_bytes, (name,), got));
        }
    }
    assert(loads =~= due);
}

/// A text that holds one reference, to a file that the loader gives, holds the file
/// in its place.
pub proof fn lemma_file_put_in<F: Fn(&str) -> Option<(String, Vec<u8>)>>(
    load_bytes: F,
    files: spec_fn(Seq<char>) -> Option<media::Loaded>,
    a: Seq<char>,
    r: Seq<char>,
    b: Seq<char>,
    id: Seq<char>,
    l: media::Loaded,
    out: Seq<char>,
)
    requires
        media::is_resolved_text(load_bytes, a + r + b, out),
        gives(load_bytes, files),
        media::references_from(a + r + b, 0) == seq![r],
        media::referenced_id(r) == Some(id),
        files(id) == Some(l),
        r.len() > 0,
        forall|i: int| 0 <= i < a.len() ==> !#[trigger] text::stands_at(a + r + b, r, i),
        forall|i: int| !#[trigger] text::stands_at(b, r, i),
    ensures
        out == a + ("data:"@ + l.content_type + ";base64,"@ + encoding::base64_text(l.bytes)) + b,
{
    lemma_text_resolved(load_bytes, files, a + r + b, out);
    lemma_reference_replaced(a, r, b, l);
    let refs = media::references_from(a + r + b, 0);
    assert(Seq::new(
        refs.len(),
        |i: int|
            match media::referenced_id(refs[i]) {
                Some(id) => files(id),
                None => None,
            },
    ) =~= seq![Some(l)]);
}

/// A value keeps its shape when the references in it are replaced: its lists keep
/// their lengths and its objects their keys, what is no text stays as it is, and
/// so does what lies too deep. Its texts are resolved, and what a list or an
/// object holds is resolved one level deeper.
pub proof fn lemma_shape_kept<F: Fn(&str) -> Option<(String, Vec<u8>)>>(
    load_bytes: F,
    v: json::JsonModel,
    out: json::JsonModel,
    depth: nat,
    max_depth: nat,
)
    requires
        media::is_resolved(load_bytes, v, out, depth, max_depth),
    ensures
        depth > max_depth ==> out == v,
        !(v is Text) && !(v is Array) && !(v is Object) ==> out == v,
        v matches json::JsonModel::Text(s) ==> (depth <= max_depth ==> (out
            matches json::JsonModel::Text(t) && media::is_resolved_text(load_bytes, s, t))),
        v matches json::JsonModel::Array(a) ==> (out matches json::JsonModel::Array(b) && b.len()
            == a.len() && (depth <= max_depth ==> forall|i: int|
            0 <= i < a.len() ==> media::is_resolved(
                load_bytes,
                #[trigger] a[i],
                b[i],
                depth + 1,
                max_depth,
            ))),
        v matches json::JsonModel::Object(a) ==> (out matches json::JsonModel::Object(b) && b.len()
            == a.len() && forall|i: int| 0 <= i < a.len() ==> (#[trigger] a[i]).0 == b[i].0),
        v matches json::JsonModel::Object(a) ==> (out matches json::JsonModel::Object(b) && (depth
            <= max_depth ==> forall|i: int|
            0 <= i < a.len() ==> media::is_resolved(
                load_bytes,
                (#[trigger] a[i]).1,
                b[i].1,
                depth + 1,
                max_depth,
            ))),
{
}

/// The address of the server is the configured one, whatever the request says;
/// else the host of the request, with its protocol where that is forwarded and
/// with `http` where it is not; else the local one.
pub proof fn lemma_base_address(
    configured: Seq<char>,
    proto: Option<Seq<char>>,
    p: Seq<char>,
    host: Option<Seq<char>>,
    h: Seq<char>,
)
    ensures
        media_store::base_address(Some(configured), proto, host) == configured,
        media_store::base_address(None, Some(p), Some(h)) == p + "://"@ + h,
        media_store::base_address(None, None, Some(h)) == "http://"@ + h,
        media_store::base_address(None, proto, None) == "http://127.0.0.1:8742"@,
{
}

/// An announcement is in order if and only if its hash takes 44 bytes and its
/// length is at least one and at most what is allowed.
pub proof fn lemma_announcement_in_order(hash: Seq<char>, content_length: i64, max: usize)
    requires
        max <= i64::MAX,
    ensures
        media_store::refusal(hash, content_length, max) is None <==> vstd::utf8::encode_utf8(
            hash,
        ).len() == 44 && 1 <= content_length && content_length <= max,
        vstd::utf8::encode_utf8(hash).len() != 44 ==> media_store::refusal(
            hash,
            content_length,
            max,
        ) == Some(
            error::ErrorModel::BadRequest(
                "sha256Hash must be a 44 character base64 encoded SHA-256 hash"@,
            ),
        ),
        vstd::utf8::encode_utf8(hash).len() == 44 && (content_length < 1 || content_length > max)
            ==> media_store::refusal(hash, content_length, max) == Some(
            error::ErrorModel::BadRequest(
                "contentLength must be between 1 and "@ + text::decimal(max as nat),
            ),
        ),
{
}

/// A file that is announced is noted as it was announced, with the id of its
/// hash, as not sent and as of now.
pub proof fn lemma_announced(
    project: Seq<char>,
    content_type: Seq<char>,
    content_length: i64,
    hash: Seq<char>,
    now: Timestamp,
)
    ensures
        ({
            let row = media_store::announced(project, content_type, content_length, hash, now);
            &&& row.id == media::media_id(hash)
            &&& row.project_id == project
            &&& row.content_type == content_type
            &&& row.content_length == content_length
            &&& row.sha256_hash == hash
            &&& row.uploaded_at is None
            &&& row.created_at == now
        }),
{
}

/// An announcement that is answered with an address to send the file to is noted
/// under its project and id, and every other account stays as it was; one that is
/// answered without changes no account.
pub proof fn lemma_announcement_noted(
    before: Map<Seq<char>, rows::MediaModel>,
    after: Map<Seq<char>, rows::MediaModel>,
    row: rows::MediaModel,
    base: Seq<char>,
    media_id: Seq<char>,
    upload_url: Option<Seq<char>>,
    other: Seq<char>,
)
    requires
        media_store::is_announcement(before, after, row, base, media_id, upload_url),
    ensures
        upload_url is None ==> after == before,
        upload_url is None ==> exists|k: Seq<char>|
            {
                &&& #[trigger] before.contains_key(k)
                &&& before[k].project_id == row.project_id
                &&& before[k].sha256_hash == row.sha256_hash
                &&& before[k].uploaded_at is Some
                &&& before[k].id == media_id
            },
        upload_url matches Some(url) ==> {
            let k = row.project_id + ":"@ + row.id;
            &&& url == media::media_address(base, media_id, "/upload"@)
            &&& media_id == row.id
            &&& after.contains_key(k)
            &&& after[k] == row
            &&& other != k ==> after.contains_key(other) == before.contains_key(other)
            &&& other != k && before.contains_key(other) ==> after[other] == before[other]
        },
{
    if upload_url is None {
        let k = choose|k: Seq<char>| #[trigger]
            media_store::is_copy(before, k, row.project_id, row.sha256_hash)
                && before[k].uploaded_at is Some && media_id == before[k].id;
        assert(before.contains_key(k));
    }
}

/// A transfer that is answered with a status from 200 to 299 has the file noted as
/// sent at that instant, and nothing else of it is changed; with any other status
/// nothing is changed.
pub proof fn lemma_transfer_noted(row: rows::MediaModel, status: i32, at: Timestamp)
    ensures
        200 <= status <= 299 ==> {
            let now = media_store::confirmed(row, status, at);
            &&& now.uploaded_at == Some(at)
            &&& now.id == row.id
            &&& now.project_id == row.project_id
            &&& now.content_type == row.content_type
            &&& now.content_length == row.content_length
            &&& now.sha256_hash == row.sha256_hash
            &&& now.created_at == row.created_at
        },
        status < 200 || status > 299 ==> media_store::confirmed(row, status, at) == row,
{
}

/// The account of a file stands under its project, a colon and its id.
pub proof fn lemma_media_key(project: Seq<char>, id: Seq<char>)
    ensures
        memory_db::media_key(project, id) == project + ":"@ + id,
{
}

/// A number below zero is written as its size with a minus sign in front.
pub proof fn lemma_signed_numbers(n: nat)
    ensures
        media_store::signed_decimal(n as int) == text::decimal(n),
        n > 0 ==> media_store::signed_decimal(-(n as int)) == "-"@ + text::decimal(n),
{
}

}
