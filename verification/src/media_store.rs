//! The steps by which a media file is announced, sent, confirmed and read.

use vstd::prelude::*;

use crate::auth;
use crate::auth::{header_text, RequestHeaders};
use crate::error;
use crate::error::ApiError;
use crate::media;
use crate::media::{content_url, media_file_path, media_id_from_sha256_hash, upload_url, url_expiry_at};
use crate::memory_db;
use crate::memory_db::MemoryDb;
use crate::rows;
use crate::rows::MediaRow;
use crate::text;
use crate::text::{byte_length, decimal_text, join, join3};
use crate::time;
use crate::time::Timestamp;

verus! {

/// The address of the server where neither the settings nor the request tell it.
pub const LOCAL_BASE: &'static str = "http://127.0.0.1:8742";

/// The address under which a client reaches the server.
pub open spec fn base_address(
    configured: Option<Seq<char>>,
    proto: Option<Seq<char>>,
    host: Option<Seq<char>>,
) -> Seq<char> {
    match (configured, proto, host) {
        (Some(base), _, _) => base,
        (None, Some(p), Some(h)) => p + "://"@ + h,
        (None, None, Some(h)) => "http://"@ + h,
        (None, _, None) => LOCAL_BASE@,
    }
}

/// The address under which a client reaches the server: the one in the settings,
/// else the host that the request names.
pub fn public_base_url(configured: &Option<String>, headers: &RequestHeaders) -> (r: String)
    ensures
        r@ == base_address(
            text::opt_text(*configured),
            auth::header_value(headers.forwarded_proto),
            auth::header_value(headers.host),
        ),
{
    if let Some(base) = configured {
        return base.clone();
    }
    match (header_text(&headers.forwarded_proto), header_text(&headers.host)) {
        (Some(proto), Some(host)) => join3(proto.as_str(), "://", host.as_str()),
        (None, Some(host)) => join("http://", host.as_str()),
        (_, None) => LOCAL_BASE.to_owned(),
    }
}

/// The announcement of a media file.
#[derive(Debug)]
pub struct CreateMedia {
    pub content_type: String,
    pub content_length: i64,
    pub sha256_hash: String,
}

/// How many bytes a hash in base64 has.
pub const HASH_LENGTH: usize = 44;

/// Why an announcement is refused, if it is.
pub open spec fn refusal(hash: Seq<char>, content_length: i64, max: usize) -> Option<
    error::ErrorModel,
> {
    if text::byte_len(hash) != HASH_LENGTH {
        Some(
            error::ErrorModel::BadRequest(
                "sha256Hash must be a 44 character base64 encoded SHA-256 hash"@,
            ),
        )
    } else if !(0 < content_length <= max && max <= i64::MAX) {
        Some(
            error::ErrorModel::BadRequest(
                "contentLength must be between 1 and "@ + text::decimal(max as nat),
            ),
        )
    } else {
        None
    }
}

/// Whether an announcement is in order: a hash of the right length, and a length
/// from 1 to `max`.
pub fn check_media(body: &CreateMedia, max: usize) -> (r: Result<(), ApiError>)
    ensures
        match refusal(body.sha256_hash@, body.content_length, max) {
            Some(e) => r matches Err(err) && err@ == e,
            None => r is Ok,
        },
{
    if byte_length(body.sha256_hash.as_str()) != HASH_LENGTH {
        return Err(
            ApiError::BadRequest(
                "sha256Hash must be a 44 character base64 encoded SHA-256 hash".to_owned(),
            ),
        );
    }
    let limit = max as u64;
    if body.content_length <= 0 || limit > 0x7fff_ffff_ffff_ffff || body.content_length as u64
        > limit {
        return Err(
            ApiError::BadRequest(
                join("contentLength must be between 1 and ", decimal_text(limit).as_str()),
            ),
        );
    }
    Ok(())
}

/// What the announcement of a media file is answered with: the id of the file,
/// and where to send it unless it is there already.
#[derive(Debug)]
pub struct CreatedMedia {
    pub media_id: String,
    pub upload_url: Option<String>,
}

/// The account of a media file that was announced and not yet sent.
pub open spec fn announced(
    project: Seq<char>,
    content_type: Seq<char>,
    content_length: i64,
    hash: Seq<char>,
    now: Timestamp,
) -> rows::MediaModel {
    rows::MediaModel {
        id: media::media_id(hash),
        project_id: project,
        content_type,
        content_length,
        sha256_hash: hash,
        uploaded_at: None,
        created_at: now,
    }
}

/// What follows from an announcement that is in order, given the account of a
/// file of the same project with the same hash, if there is one: nothing is to
/// be stored where that file was sent; else a new account is.
pub fn plan_media(
    project_id: &str,
    body: &CreateMedia,
    base: &str,
    existing: Option<MediaRow>,
    now: Timestamp,
) -> (r: (Option<MediaRow>, CreatedMedia))
    ensures
        match existing {
            Some(row) if row.uploaded_at is Some => {
                &&& r.0 is None
                &&& r.1.media_id@ == row@.id
                &&& r.1.upload_url is None
            },
            _ => {
                &&& r.0 matches Some(row)
                &&& row@ == announced(
                    project_id@,
                    body.content_type@,
                    body.content_length,
                    body.sha256_hash@,
                    now,
                )
                &&& r.1.media_id@ == media::media_id(body.sha256_hash@)
                &&& text::opt_text(r.1.upload_url) == Some(
                    media::media_address(base@, media::media_id(body.sha256_hash@), "/upload"@),
                )
            },
        },
{
    if let Some(row) = existing {
        if row.uploaded_at.is_some() {
            return (None, CreatedMedia { media_id: row.id, upload_url: None });
        }
    }
    let id = media_id_from_sha256_hash(body.sha256_hash.as_str());
    let row = MediaRow {
        id: id.clone(),
        project_id: project_id.to_owned(),
        content_type: body.content_type.clone(),
        content_length: body.content_length,
        sha256_hash: body.sha256_hash.clone(),
        uploaded_at: None,
        created_at: now,
    };
    let url = upload_url(base, id.as_str());
    (Some(row), CreatedMedia { media_id: id, upload_url: Some(url) })
}

/// Whether the account under `k` is of a file of the project with the hash.
pub open spec fn is_copy(
    m: Map<Seq<char>, rows::MediaModel>,
    k: Seq<char>,
    project: Seq<char>,
    hash: Seq<char>,
) -> bool {
    m.contains_key(k) && m[k].project_id == project && m[k].sha256_hash == hash
}

/// What an announcement that is in order is answered with and what it stores:
/// the id of a file of the project with the same hash that was sent; or, where
/// there is no file with that hash or one that was not sent, a new account.
pub open spec fn is_announcement(
    before: Map<Seq<char>, rows::MediaModel>,
    after: Map<Seq<char>, rows::MediaModel>,
    row: rows::MediaModel,
    base: Seq<char>,
    media_id: Seq<char>,
    upload_url: Option<Seq<char>>,
) -> bool {
    ||| {
        &&& exists|k: Seq<char>| #[trigger]
            is_copy(before, k, row.project_id, row.sha256_hash) && before[k].uploaded_at is Some
                && media_id == before[k].id
        &&& upload_url is None
        &&& after == before
    }
    ||| {
        &&& (exists|k: Seq<char>| #[trigger]
            is_copy(before, k, row.project_id, row.sha256_hash) && before[k].uploaded_at is None)
            || (forall|k: Seq<char>| !#[trigger] is_copy(before, k, row.project_id, row.sha256_hash))
        &&& media_id == row.id
        &&& upload_url == Some(media::media_address(base, row.id, "/upload"@))
        &&& after == before.insert(memory_db::media_key(row.project_id, row.id), row)
    }
}

/// Takes the announcement of a media file of a project at the instant `now`.
pub fn post_media(
    db: &mut MemoryDb,
    project_id: &str,
    body: &CreateMedia,
    max: usize,
    base: &str,
    now: Timestamp,
) -> (r: Result<CreatedMedia, ApiError>)
    requires
        old(db).wf(),
    ensures
        final(db).wf(),
        final(db).traces() == old(db).traces(),
        final(db).observations() == old(db).observations(),
        final(db).metrics() == old(db).metrics(),
        match refusal(body.sha256_hash@, body.content_length, max) {
            Some(e) => (r matches Err(err) && err@ == e) && final(db).media() == old(db).media(),
            None => r matches Ok(c) && is_announcement(
                old(db).media(),
                final(db).media(),
                announced(
                    project_id@,
                    body.content_type@,
                    body.content_length,
                    body.sha256_hash@,
                    now,
                ),
                base@,
                c.media_id@,
                text::opt_text(c.upload_url),
            ),
        },
{
    match check_media(body, max) {
        Err(e) => Err(e),
        Ok(()) => {
            let existing = db.find_media_by_sha256(project_id, body.sha256_hash.as_str());
            let ghost m = db.media();
            proof {
                if existing is Some {
                    let k = choose|k: Seq<char>| #[trigger] m.contains_key(k) && m[k] == existing->0@;
                    assert(is_copy(m, k, project_id@, body.sha256_hash@));
                }
            }
            let (row, created) = plan_media(project_id, body, base, existing, now);
            if let Some(row) = row {
                db.upsert_media_row(row);
            }
            Ok(created)
        },
    }
}

/// What a media file is told to be.
#[derive(Debug)]
pub struct MediaAnswer {
    pub media_id: String,
    pub content_type: String,
    pub content_length: i64,
    pub uploaded_at: Option<Timestamp>,
    pub url: String,
    pub url_expiry: String,
}

/// The account of a file that was sent, if there is one.
pub open spec fn sent(row: Option<MediaRow>) -> bool {
    row matches Some(r) && r.uploaded_at is Some
}

/// How long the address of a media file is said to hold, in hours.
pub const URL_HOURS: i64 = 1;

/// What is told of a media file, given its account, if there is one: of a file
/// that was not sent, nothing.
pub fn describe_media(row: Option<MediaRow>, media_id: &str, base: &str, now: &Timestamp) -> (r:
    Result<MediaAnswer, ApiError>)
    requires
        time::shifted(now@, URL_HOURS * time::SECONDS_PER_HOUR) is Some,
    ensures
        match r {
            Ok(a) => {
                &&& sent(row)
                &&& a.media_id@ == row->0@.id
                &&& a.content_type@ == row->0@.content_type
                &&& a.content_length == row->0.content_length
                &&& a.uploaded_at == row->0.uploaded_at
                &&& a.url@ == media::media_address(base@, media_id@, "/content"@)
                &&& time::shifted(now@, URL_HOURS * time::SECONDS_PER_HOUR) matches Some(t)
                    && a.url_expiry@ == time::rfc3339_name(t.0, t.1)
            },
            Err(e) => !sent(row) && e is NotFound,
        },
{
    match row {
        Some(row) => {
            if row.uploaded_at.is_none() {
                return Err(ApiError::NotFound);
            }
            let url_expiry = url_expiry_at(now, URL_HOURS).unwrap();
            Ok(
                MediaAnswer {
                    url: content_url(base, media_id),
                    url_expiry,
                    media_id: row.id,
                    content_type: row.content_type,
                    content_length: row.content_length,
                    uploaded_at: row.uploaded_at,
                },
            )
        },
        None => Err(ApiError::NotFound),
    }
}

/// Whether the answer to a transfer says that it was carried out.
pub open spec fn transfer_done(status: i32) -> bool {
    200 <= status < 300
}

/// The account of a media file after its sender told how the transfer ended.
pub open spec fn confirmed(row: rows::MediaModel, status: i32, at: Timestamp) -> rows::MediaModel {
    if transfer_done(status) {
        rows::MediaModel { uploaded_at: Some(at), ..row }
    } else {
        row
    }
}

/// The account of a media file after its sender told how the transfer ended.
pub fn confirm_media(row: Option<MediaRow>, status: i32, uploaded_at: Timestamp) -> (r: Result<
    MediaRow,
    ApiError,
>)
    ensures
        match row {
            Some(old_row) => r matches Ok(new_row) && new_row@ == confirmed(
                old_row@,
                status,
                uploaded_at,
            ),
            None => r matches Err(e) && e is NotFound,
        },
{
    match row {
        Some(mut row) => {
            if status >= 200 && status < 300 {
                row.uploaded_at = Some(uploaded_at);
            }
            Ok(row)
        },
        None => Err(ApiError::NotFound),
    }
}

/// Takes note of how the transfer of a media file of a project ended.
pub fn patch_media(
    db: &mut MemoryDb,
    project_id: &str,
    media_id: &str,
    status: i32,
    uploaded_at: Timestamp,
) -> (r: Result<(), ApiError>)
    requires
        old(db).wf(),
    ensures
        final(db).wf(),
        final(db).traces() == old(db).traces(),
        final(db).observations() == old(db).observations(),
        final(db).metrics() == old(db).metrics(),
        ({
            let m = old(db).media();
            let k = memory_db::media_key(project_id@, media_id@);
            if m.contains_key(k) {
                &&& r is Ok
                &&& final(db).media() == m.insert(
                    memory_db::media_key(m[k].project_id, m[k].id),
                    confirmed(m[k], status, uploaded_at),
                )
            } else {
                &&& r matches Err(e)
                &&& e is NotFound
                &&& final(db).media() == m
            }
        }),
{
    let row = db.get_media_row(project_id, media_id);
    match confirm_media(row, status, uploaded_at) {
        Ok(row) => {
            db.upsert_media_row(row);
            Ok(())
        },
        Err(e) => Err(e),
    }
}

/// The text of an integer.
pub open spec fn signed_decimal(n: int) -> Seq<char> {
    if n < 0 {
        "-"@ + text::decimal((-n) as nat)
    } else {
        text::decimal(n as nat)
    }
}

/// The text of an integer.
pub fn signed_text(n: i64) -> (r: String)
    ensures
        r@ == signed_decimal(n as int),
{
    if n < 0 {
        let size: u64 = (-(n + 1)) as u64 + 1;
        join("-", decimal_text(size).as_str())
    } else {
        decimal_text(n as u64)
    }
}

/// Where the bytes of a media file that arrive are to be written, given its
/// account, if there is one: nowhere unless they are as many as were announced.
pub fn place_upload(
    row: Option<MediaRow>,
    media_dir: &str,
    project_id: &str,
    media_id: &str,
    body_length: usize,
) -> (r: Result<String, ApiError>)
    ensures
        match row {
            Some(row) if row.content_length == body_length => r matches Ok(path) && path@
                == media::file_path(media_dir@, project_id@, media_id@, row@.content_type),
            Some(row) => r matches Err(e) && e@ == error::ErrorModel::BadRequest(
                "expected "@ + signed_decimal(row.content_length as int) + " bytes, got "@
                    + text::decimal(body_length as nat),
            ),
            None => r matches Err(e) && e is NotFound,
        },
{
    match row {
        Some(row) => {
            if row.content_length < 0 || row.content_length as u64 != body_length as u64 {
                let mut message = join3(
                    "expected ",
                    signed_text(row.content_length).as_str(),
                    " bytes, got ",
                );
                message.append(decimal_text(body_length as u64).as_str());
                return Err(ApiError::BadRequest(message));
            }
            Ok(media_file_path(media_dir, project_id, media_id, row.content_type.as_str()))
        },
        None => Err(ApiError::NotFound),
    }
}

/// Where the bytes of a media file stand, and of what type they are, given its
/// account, if there is one: of a file that was not sent, nothing is told.
pub fn locate_content(row: Option<MediaRow>, media_dir: &str, project_id: &str, media_id: &str) -> (r:
    Result<(String, String), ApiError>)
    ensures
        match r {
            Ok((path, content_type)) => {
                &&& sent(row)
                &&& path@ == media::file_path(
                    media_dir@,
                    project_id@,
                    media_id@,
                    row->0@.content_type,
                )
                &&& content_type@ == row->0@.content_type
            },
            Err(e) => !sent(row) && e is NotFound,
        },
{
    match row {
        Some(row) => {
            if row.uploaded_at.is_none() {
                return Err(ApiError::NotFound);
            }
            let path = media_file_path(media_dir, project_id, media_id, row.content_type.as_str());
            Ok((path, row.content_type))
        },
        None => Err(ApiError::NotFound),
    }
}

/// Whether every account stands under its own project and id, and the id is that
/// of its hash.
pub open spec fn consistent(m: Map<Seq<char>, rows::MediaModel>) -> bool {
    forall|k: Seq<char>| #[trigger]
        m.contains_key(k) ==> k == memory_db::media_key(m[k].project_id, m[k].id) && m[k].id
            == media::media_id(m[k].sha256_hash)
}

/// An announcement keeps the accounts consistent.
pub proof fn lemma_announcement_keeps_consistent(
    before: Map<Seq<char>, rows::MediaModel>,
    after: Map<Seq<char>, rows::MediaModel>,
    row: rows::MediaModel,
    base: Seq<char>,
    media_id: Seq<char>,
    upload_url: Option<Seq<char>>,
)
    requires
        consistent(before),
        row.id == media::media_id(row.sha256_hash),
        is_announcement(before, after, row, base, media_id, upload_url),
    ensures
        consistent(after),
{
}

/// What a sender tells of a transfer keeps the accounts consistent, and changes
/// only the account of that file.
pub proof fn lemma_confirmation_keeps_consistent(
    m: Map<Seq<char>, rows::MediaModel>,
    project: Seq<char>,
    id: Seq<char>,
    status: i32,
    at: Timestamp,
)
    requires
        consistent(m),
        m.contains_key(memory_db::media_key(project, id)),
    ensures
        ({
            let k = memory_db::media_key(project, id);
            &&& memory_db::media_key(m[k].project_id, m[k].id) == k
            &&& consistent(m.insert(k, confirmed(m[k], status, at)))
        }),
{
}

/// Where the accounts are consistent, an announcement is answered without an
/// upload address if and only if a file of the project with the same hash was
/// sent; and the id that it is told is the id of the hash.
pub proof fn lemma_announcement_is_decided(
    before: Map<Seq<char>, rows::MediaModel>,
    after: Map<Seq<char>, rows::MediaModel>,
    row: rows::MediaModel,
    base: Seq<char>,
    media_id: Seq<char>,
    upload_url: Option<Seq<char>>,
)
    requires
        consistent(before),
        row.id == media::media_id(row.sha256_hash),
        is_announcement(before, after, row, base, media_id, upload_url),
    ensures
        media_id == row.id,
        upload_url is None <==> {
            let k = memory_db::media_key(row.project_id, row.id);
            is_copy(before, k, row.project_id, row.sha256_hash) && before[k].uploaded_at is Some
        },
{
    let k = memory_db::media_key(row.project_id, row.id);
    assert forall|j: Seq<char>| is_copy(before, j, row.project_id, row.sha256_hash) implies j
        == k by {
        assert(before.contains_key(j));
    }
}

/// A file that was announced and whose transfer was confirmed is not asked for
/// again: whoever announces it once more is told its id and no upload address,
/// and nothing is stored.
pub proof fn lemma_confirmed_file_is_kept(
    before: Map<Seq<char>, rows::MediaModel>,
    announced_in: Map<Seq<char>, rows::MediaModel>,
    row: rows::MediaModel,
    status: i32,
    at: Timestamp,
    after: Map<Seq<char>, rows::MediaModel>,
    again: rows::MediaModel,
    base: Seq<char>,
    media_id: Seq<char>,
    upload_url: Option<Seq<char>>,
)
    requires
        consistent(before),
        row.id == media::media_id(row.sha256_hash),
        announced_in == before.insert(memory_db::media_key(row.project_id, row.id), row),
        transfer_done(status),
        again.project_id == row.project_id,
        again.sha256_hash == row.sha256_hash,
        again.id == row.id,
        ({
            let k = memory_db::media_key(row.project_id, row.id);
            is_announcement(
                announced_in.insert(k, confirmed(announced_in[k], status, at)),
                after,
                again,
                base,
                media_id,
                upload_url,
            )
        }),
    ensures
        media_id == row.id,
        upload_url is None,
        after == announced_in.insert(
            memory_db::media_key(row.project_id, row.id),
            confirmed(row, status, at),
        ),
{
    let k = memory_db::media_key(row.project_id, row.id);
    let stored = announced_in.insert(k, confirmed(announced_in[k], status, at));
    assert(consistent(stored));
    assert(is_copy(stored, k, again.project_id, again.sha256_hash));
    lemma_announcement_is_decided(stored, after, again, base, media_id, upload_url);
}

/// The keys of two files differ if their projects differ or their ids do, unless
/// the name of a project holds a colon.
pub proof fn lemma_media_keys_differ(
    project1: Seq<char>,
    id1: Seq<char>,
    project2: Seq<char>,
    id2: Seq<char>,
)
    requires
        !project1.contains(':'),
        !project2.contains(':'),
        memory_db::media_key(project1, id1) == memory_db::media_key(project2, id2),
    ensures
        project1 == project2,
        id1 == id2,
{
    reveal_strlit(":");
    let k = memory_db::media_key(project1, id1);
    let n1 = project1.len() as int;
    let n2 = project2.len() as int;
    assert(k == project1 + ":"@ + id1);
    assert(k == project2 + ":"@ + id2);
    assert(k[n1] == ':');
    assert(k[n2] == ':');
    if n1 < n2 {
        assert(project2[n1] == ':');
    }
    if n2 < n1 {
        assert(project1[n2] == ':');
    }
    assert(project1 =~= k.take(n1));
    assert(project2 =~= k.take(n2));
    assert(id1 =~= k.skip(n1 + 1));
    assert(id2 =~= k.skip(n2 + 1));
}

}
