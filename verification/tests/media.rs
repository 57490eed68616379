use base64::engine::general_purpose::STANDARD as BASE64_STANDARD;
use base64::Engine;
use xtrace::auth::RequestHeaders;
use xtrace::error::ApiError;
use xtrace::json::{Json, Members};
use xtrace::media::{
    content_url, extension_for_content_type, find_media_references, media_file_path,
    media_id_from_sha256_hash, parse_media_reference, resolve_media_references_in_json,
    resolve_media_references_in_str, substitute, upload_url, url_expiry_at, url_expiry_rfc3339,
};
use xtrace::media_store::{
    check_media, confirm_media, describe_media, locate_content, patch_media, place_upload,
    plan_media, post_media, public_base_url, signed_text, CreateMedia,
};
use xtrace::memory_db::MemoryDb;
use xtrace::rows::MediaRow;
use xtrace::time::Timestamp;

const HASH: &str = "n4bQgYhMfWWaL+qgxVrQFaO/TxsrC4Is0V1sFbDwCgg=";

fn at(secs: i64) -> Timestamp {
    Timestamp::new(secs, 0).unwrap()
}

fn object(members: Vec<(&str, Json)>) -> Json {
    let mut m = Members::new();
    for (k, v) in members {
        m.insert(k.to_string(), v);
    }
    Json::Object(m)
}

fn member<'a>(j: &'a Json, key: &str) -> &'a Json {
    match j {
        Json::Object(m) => m.get(key).unwrap(),
        _ => panic!("expected an object"),
    }
}

fn item(j: &Json, i: usize) -> &Json {
    match j {
        Json::Array(v) => &v[i],
        _ => panic!("expected an array"),
    }
}

fn text(j: &Json) -> &str {
    match j {
        Json::Text(s) => s.as_str(),
        _ => panic!("expected a text"),
    }
}

fn body(hash: &str, length: i64) -> CreateMedia {
    CreateMedia {
        content_type: "image/png".to_string(),
        content_length: length,
        sha256_hash: hash.to_string(),
    }
}

fn row(uploaded: bool) -> MediaRow {
    MediaRow {
        id: "id1".to_string(),
        project_id: "p".to_string(),
        content_type: "image/png".to_string(),
        content_length: 5,
        sha256_hash: HASH.to_string(),
        uploaded_at: if uploaded { Some(at(50)) } else { None },
        created_at: at(10),
    }
}

#[test]
fn media_id_from_sha256_matches_langfuse_style() {
    let hash = "dGVzdGhhc2gAAAAAAAAAAAAAAAAAAAAAAA==";
    let id = media_id_from_sha256_hash(hash);
    assert_eq!(id.len(), 22);
    assert!(!id.contains('+'));
    assert!(!id.contains('/'));
}

#[test]
fn resolves_media_reference_in_string() {
    let reference = "@@@langfuseMedia:type=image/jpeg|id=test-id-123456789012|source=bytes@@@";
    let input = object(vec![(
        "content",
        Json::Array(vec![object(vec![
            ("type", Json::Text("image_url".to_string())),
            ("image_url", object(vec![("url", Json::Text(reference.to_string()))])),
        ])]),
    )]);
    let resolved = resolve_media_references_in_json(
        &input,
        &|id: &str| {
            if id == "test-id-123456789012" {
                Some(("image/jpeg".into(), b"\xff\xd8\xff".to_vec()))
            } else {
                None
            }
        },
        10,
    );
    let url = text(member(member(item(member(&resolved, "content"), 0), "image_url"), "url"));
    assert!(url.starts_with("data:image/jpeg;base64,"));
    assert_eq!(url, "data:image/jpeg;base64,/9j/");
}

#[test]
fn media_ids_are_url_safe() {
    assert_eq!(media_id_from_sha256_hash(HASH), "n4bQgYhMfWWaL-qgxVrQFa");
    assert_eq!(media_id_from_sha256_hash("a+b/c"), "a-b_c");
}

#[test]
fn content_types_have_extensions() {
    let cases = [
        ("image/png", "png"),
        ("image/jpeg", "jpeg"),
        ("image/jpg", "jpeg"),
        ("image/webp", "webp"),
        ("image/gif", "gif"),
        ("application/pdf", "pdf"),
        ("audio/mpeg", "mp3"),
        ("audio/mp3", "mp3"),
        ("audio/wav", "wav"),
        ("IMAGE/PNG", "bin"),
        ("", "bin"),
    ];
    for (content_type, extension) in cases {
        assert_eq!(extension_for_content_type(content_type), extension);
    }
}

#[test]
fn files_stand_below_their_project() {
    assert_eq!(media_file_path("media", "p", "id", "image/png"), "media/p/id.png");
    assert_eq!(media_file_path("media/", "p", "id", "image/png"), "media/p/id.png");
    assert_eq!(media_file_path("", "p", "id", "image/png"), "p/id.png");
}

#[test]
fn addresses_end_in_content_and_upload() {
    assert_eq!(content_url("http://h//", "id"), "http://h/api/public/media/id/content");
    assert_eq!(upload_url("http://h", "id"), "http://h/api/public/media/id/upload");
}

#[test]
fn addresses_expire_after_hours() {
    assert_eq!(url_expiry_at(&at(0), 1).unwrap(), "1970-01-01T01:00:00+00:00");
    assert_eq!(url_expiry_at(&at(0), -1).unwrap(), "1969-12-31T23:00:00+00:00");
    assert!(url_expiry_at(&at(0), 2_562_047_788_015).is_none());
    assert!(url_expiry_rfc3339(1).unwrap().ends_with("+00:00"));
    assert!(url_expiry_rfc3339(0).is_some());
    assert!(url_expiry_rfc3339(-2_315_167_008).is_some());
    assert!(url_expiry_rfc3339(2_562_047_788_015).is_none());
}

#[test]
fn references_are_parsed() {
    assert_eq!(
        parse_media_reference("@@@langfuseMedia:type=a|id=x|source=b@@@").unwrap().media_id,
        "x"
    );
    assert_eq!(parse_media_reference("@@@langfuseMedia:id=x|id=y@@@").unwrap().media_id, "y");
    assert!(parse_media_reference("@@@langfuseMedia:type=a@@@").is_none());
    assert!(parse_media_reference("@@@langfuseMedia:id=x|broken@@@").is_none());
    assert!(parse_media_reference("langfuseMedia:id=x@@@").is_none());
}

#[test]
fn references_are_found_in_order() {
    let s = "é@@@langfuseMedia:id=1@@@ and @@@langfuseMedia:id=2@@@ then @@@langfuseMedia:id=3";
    assert_eq!(
        find_media_references(s),
        vec!["@@@langfuseMedia:id=1@@@".to_string(), "@@@langfuseMedia:id=2@@@".to_string()]
    );
    assert!(find_media_references("nothing").is_empty());
}

#[test]
fn texts_without_references_stay() {
    let load = |_: &str| Some(("text/plain".to_string(), b"x".to_vec()));
    assert_eq!(resolve_media_references_in_str("plain @@@ text", &load), "plain @@@ text");
    let none = |_: &str| None::<(String, Vec<u8>)>;
    let s = "see @@@langfuseMedia:id=1@@@";
    assert_eq!(resolve_media_references_in_str(s, &none), s);
}

#[test]
fn every_reference_is_replaced() {
    let load = |id: &str| Some(("t/t".to_string(), id.as_bytes().to_vec()));
    let s = "@@@langfuseMedia:id=a@@@, @@@langfuseMedia:id=b@@@, @@@langfuseMedia:id=a@@@";
    assert_eq!(
        resolve_media_references_in_str(s, &load),
        "data:t/t;base64,YQ==, data:t/t;base64,Yg==, data:t/t;base64,YQ=="
    );
    assert_eq!(substitute("x.x", "x", "t", &b"abc".to_vec()), "data:t;base64,YWJj.data:t;base64,YWJj");
    assert_eq!(BASE64_STANDARD.encode(b"abc"), "YWJj");
}

#[test]
fn each_reference_is_loaded_once() {
    let asked = std::cell::RefCell::new(Vec::new());
    let load = |id: &str| {
        asked.borrow_mut().push(id.to_string());
        None::<(String, Vec<u8>)>
    };
    let s = "@@@langfuseMedia:id=a@@@ @@@langfuseMedia:id=b@@@ @@@langfuseMedia:id=a@@@";
    assert_eq!(resolve_media_references_in_str(s, &load), s);
    assert_eq!(*asked.borrow(), vec!["a", "b", "a"]);
}

#[test]
fn what_lies_deeper_than_the_limit_stays() {
    let load = |_: &str| Some(("t".to_string(), b"a".to_vec()));
    let reference = "@@@langfuseMedia:id=a@@@";
    let value = Json::Array(vec![
        Json::Text(reference.to_string()),
        Json::Array(vec![Json::Text(reference.to_string()), Json::Null]),
    ]);
    let out = resolve_media_references_in_json(&value, &load, 1);
    assert_eq!(text(item(&out, 0)), "data:t;base64,YQ==");
    assert_eq!(text(item(item(&out, 1), 0)), reference);
    let out = resolve_media_references_in_json(&value, &load, 0);
    assert!(out.equals(&value));
}

#[test]
fn base_addresses_come_from_settings_then_headers() {
    let none = RequestHeaders { authorization: None, forwarded_proto: None, host: None };
    let host = RequestHeaders {
        authorization: None,
        forwarded_proto: None,
        host: Some(b"h:1".to_vec()),
    };
    let both = RequestHeaders {
        authorization: None,
        forwarded_proto: Some(b"https".to_vec()),
        host: Some(b"h:1".to_vec()),
    };
    let proto = RequestHeaders {
        authorization: None,
        forwarded_proto: Some(b"https".to_vec()),
        host: None,
    };
    assert_eq!(public_base_url(&Some("http://set".to_string()), &both), "http://set");
    assert_eq!(public_base_url(&None, &both), "https://h:1");
    assert_eq!(public_base_url(&None, &host), "http://h:1");
    assert_eq!(public_base_url(&None, &proto), "http://127.0.0.1:8742");
    assert_eq!(public_base_url(&None, &none), "http://127.0.0.1:8742");
}

#[test]
fn announcements_are_checked() {
    assert!(check_media(&body(HASH, 1), 10).is_ok());
    assert!(check_media(&body(HASH, 10), 10).is_ok());
    match check_media(&body("short", 1), 10) {
        Err(ApiError::BadRequest(m)) => {
            assert_eq!(m, "sha256Hash must be a 44 character base64 encoded SHA-256 hash")
        }
        _ => panic!("expected an error"),
    }
    for length in [0, -1, 11, i64::MIN] {
        match check_media(&body(HASH, length), 10) {
            Err(ApiError::BadRequest(m)) => {
                assert_eq!(m, "contentLength must be between 1 and 10")
            }
            _ => panic!("expected an error"),
        }
    }
}

#[test]
fn known_files_are_not_asked_for_again() {
    let (stored, told) = plan_media("p", &body(HASH, 5), "http://b", Some(row(true)), at(100));
    assert!(stored.is_none());
    assert_eq!(told.media_id, "id1");
    assert!(told.upload_url.is_none());
    let (stored, told) = plan_media("p", &body(HASH, 5), "http://b", Some(row(false)), at(100));
    let stored = stored.unwrap();
    assert_eq!(stored.id, "n4bQgYhMfWWaL-qgxVrQFa");
    assert_eq!(stored.created_at, at(100));
    assert_eq!(
        told.upload_url.unwrap(),
        "http://b/api/public/media/n4bQgYhMfWWaL-qgxVrQFa/upload"
    );
}

#[test]
fn media_go_from_announcement_to_confirmation() {
    let mut db = MemoryDb::new();
    let told = post_media(&mut db, "p", &body(HASH, 5), 100, "http://b", at(100)).unwrap();
    let id = told.media_id.clone();
    assert!(told.upload_url.is_some());
    assert!(matches!(
        describe_media(db.get_media_row("p", &id), &id, "http://b", &at(200)),
        Err(ApiError::NotFound)
    ));
    assert_eq!(
        place_upload(db.get_media_row("p", &id), "dir", "p", &id, 5).unwrap(),
        format!("dir/p/{id}.png")
    );
    match place_upload(db.get_media_row("p", &id), "dir", "p", &id, 6) {
        Err(ApiError::BadRequest(m)) => assert_eq!(m, "expected 5 bytes, got 6"),
        _ => panic!("expected an error"),
    }

    patch_media(&mut db, "p", &id, 500, at(150)).unwrap();
    assert!(db.get_media_row("p", &id).unwrap().uploaded_at.is_none());
    patch_media(&mut db, "p", &id, 200, at(150)).unwrap();
    let answer = describe_media(db.get_media_row("p", &id), &id, "http://b", &at(0)).unwrap();
    assert_eq!(answer.media_id, id);
    assert_eq!(answer.content_type, "image/png");
    assert_eq!(answer.content_length, 5);
    assert_eq!(answer.uploaded_at, Some(at(150)));
    assert_eq!(answer.url, format!("http://b/api/public/media/{id}/content"));
    assert_eq!(answer.url_expiry, "1970-01-01T01:00:00+00:00");
    let (path, content_type) =
        locate_content(db.get_media_row("p", &id), "dir", "p", &id).unwrap();
    assert_eq!(path, format!("dir/p/{id}.png"));
    assert_eq!(content_type, "image/png");

    let again = post_media(&mut db, "p", &body(HASH, 5), 100, "http://b", at(300)).unwrap();
    assert_eq!(again.media_id, id);
    assert!(again.upload_url.is_none());
    assert_eq!(db.get_media_row("p", &id).unwrap().created_at, at(100));
}

#[test]
fn media_of_other_projects_are_not_seen() {
    let mut db = MemoryDb::new();
    let told = post_media(&mut db, "p", &body(HASH, 5), 100, "http://b", at(100)).unwrap();
    assert!(db.get_media_row("q", &told.media_id).is_none());
    assert!(db.find_media_by_sha256("q", HASH).is_none());
    assert_eq!(db.find_media_by_sha256("p", HASH).unwrap().id, told.media_id);
    assert!(matches!(
        patch_media(&mut db, "q", &told.media_id, 200, at(1)),
        Err(ApiError::NotFound)
    ));
    assert!(matches!(
        post_media(&mut db, "p", &body("x", 5), 100, "http://b", at(1)),
        Err(ApiError::BadRequest(_))
    ));
}

#[test]
fn files_of_two_projects_with_one_id_are_kept_apart() {
    let mut db = MemoryDb::new();
    let a = post_media(&mut db, "p", &body(HASH, 5), 100, "http://b", at(1)).unwrap();
    let b = post_media(&mut db, "q", &body(HASH, 7), 100, "http://b", at(2)).unwrap();
    assert_eq!(a.media_id, b.media_id);
    patch_media(&mut db, "q", &b.media_id, 204, at(9)).unwrap();
    let of_p = db.get_media_row("p", &a.media_id).unwrap();
    let of_q = db.get_media_row("q", &a.media_id).unwrap();
    assert_eq!((of_p.content_length, of_p.uploaded_at), (5, None));
    assert_eq!((of_q.content_length, of_q.uploaded_at), (7, Some(at(9))));
}

#[test]
fn statuses_of_success_confirm_a_transfer() {
    for (status, done) in [(199, false), (200, true), (299, true), (300, false)] {
        let r = confirm_media(Some(row(false)), status, at(7)).unwrap();
        assert_eq!(r.uploaded_at, if done { Some(at(7)) } else { None });
    }
    assert!(matches!(confirm_media(None, 200, at(7)), Err(ApiError::NotFound)));
    assert!(matches!(locate_content(None, "d", "p", "i"), Err(ApiError::NotFound)));
    assert!(matches!(locate_content(Some(row(false)), "d", "p", "i"), Err(ApiError::NotFound)));
    assert!(matches!(place_upload(None, "d", "p", "i", 1), Err(ApiError::NotFound)));
}

#[test]
fn integers_have_texts() {
    assert_eq!(signed_text(0), "0");
    assert_eq!(signed_text(-7), "-7");
    assert_eq!(signed_text(i64::MIN), i64::MIN.to_string());
    assert_eq!(signed_text(i64::MAX), i64::MAX.to_string());
}
