use base64::engine::general_purpose::STANDARD as BASE64_STANDARD;
use base64::Engine;
use xtrace::auth::{
    basic_credentials, extract_auth, extract_client_key, header_text, resolve_auth_context,
    AuthHeader, Decision, Gate, RequestHeaders,
};
use xtrace::auth_context::{
    is_write_route, AuthAccess, AuthContext, AuthRegistry, Authenticated, Method,
};
use xtrace::error::ApiError;
use xtrace::rate_limit::{is_limited, settle};
use xtrace::stats::{mask_client_key, top_counts, IngestStats, RateLimitStats, Share, TokenCount};
use xtrace::time::Timestamp;

fn no_headers() -> RequestHeaders {
    RequestHeaders { authorization: None, forwarded_proto: None, host: None }
}

fn header(value: &str) -> RequestHeaders {
    RequestHeaders { authorization: Some(value.as_bytes().to_vec()), ..no_headers() }
}

fn single_token(write: &str, read: Option<&str>) -> AuthRegistry {
    AuthRegistry::from_config(
        "default".to_string(),
        write.to_string(),
        read.map(str::to_string),
        None,
        None,
        None,
        None,
    )
}

fn gate(registry: AuthRegistry) -> Gate {
    Gate {
        registry,
        langfuse_public_key: None,
        langfuse_secret_key: None,
        allow_unauthenticated_compat: false,
    }
}

#[test]
fn extract_bearer_token() {
    let headers = header("Bearer secret-token");
    match extract_auth(&headers).unwrap() {
        AuthHeader::Bearer(token) => assert_eq!(token, "secret-token"),
        _ => panic!("expected bearer"),
    }
}

#[test]
fn extract_basic_credentials() {
    let encoded = BASE64_STANDARD.encode("pk-test:sk-test");
    let headers = header(&format!("Basic {encoded}"));
    match extract_auth(&headers).unwrap() {
        AuthHeader::Basic { username, password } => {
            assert_eq!(username, "pk-test");
            assert_eq!(password, "sk-test");
        }
        _ => panic!("expected basic"),
    }
}

#[test]
fn extract_auth_rejects_missing_header() {
    assert!(extract_auth(&no_headers()).is_err());
}

#[test]
fn extract_client_key_masks_bearer_prefix() {
    let headers = header("Bearer very-long-secret-token");
    let key = extract_client_key(&headers);
    assert!(key.starts_with("bearer:very-lon"));
}

#[test]
fn project_tokens_map_to_isolated_projects() {
    let registry = AuthRegistry::from_config(
        "default".to_string(),
        "legacy-write".to_string(),
        None,
        None,
        None,
        Some("team-a:write-a:read-a,team-b:write-b"),
        None,
    );
    let a_write = registry.resolve_bearer("write-a").unwrap();
    assert_eq!(a_write.project_id, "team-a");
    assert_eq!(a_write.access, AuthAccess::Write);
    let a_read = registry.resolve_bearer("read-a").unwrap();
    assert_eq!(a_read.project_id, "team-a");
    assert_eq!(a_read.access, AuthAccess::Read);
    let b = registry.resolve_bearer("write-b").unwrap();
    assert_eq!(b.project_id, "team-b");
    assert!(registry.resolve_bearer("legacy-write").is_none());
}

#[test]
fn legacy_single_token_falls_back_to_default_project() {
    let registry = AuthRegistry::from_config(
        "default".to_string(),
        "write-only".to_string(),
        Some("read-only".to_string()),
        None,
        None,
        None,
        None,
    );
    let write = registry.resolve_bearer("write-only").unwrap();
    assert_eq!(write.project_id, "default");
    assert_eq!(write.access, AuthAccess::Write);
    let read = registry.resolve_bearer("read-only").unwrap();
    assert_eq!(read.access, AuthAccess::Read);
}

#[test]
fn malformed_authorization_headers_are_refused() {
    assert!(extract_auth(&header("Token abc")).is_err());
    assert!(extract_auth(&header("Bearer ")).is_err());
    assert!(extract_auth(&header("Basic !!!")).is_err());
    let no_colon = BASE64_STANDARD.encode("nocolon");
    assert!(extract_auth(&header(&format!("Basic {no_colon}"))).is_err());
    let not_text = BASE64_STANDARD.encode([0xff, 0xfe, 0x3a]);
    assert!(extract_auth(&header(&format!("Basic {not_text}"))).is_err());
    let bad_byte = RequestHeaders {
        authorization: Some(vec![b'B', b'e', b'a', b'r', b'e', b'r', b' ', 0xe9]),
        ..no_headers()
    };
    assert!(extract_auth(&bad_byte).is_err());
}

#[test]
fn passwords_may_hold_colons() {
    match basic_credentials(&b"user:a:b".to_vec()).unwrap() {
        AuthHeader::Basic { username, password } => {
            assert_eq!(username, "user");
            assert_eq!(password, "a:b");
        }
        _ => panic!("expected basic"),
    }
    assert!(basic_credentials(&vec![0xc3, 0x28]).is_err());
}

#[test]
fn header_text_takes_visible_ascii_spaces_and_tabs() {
    assert_eq!(header_text(&Some(b"a b\tc~".to_vec())), Some("a b\tc~".to_string()));
    assert_eq!(header_text(&Some(vec![127])), None);
    assert_eq!(header_text(&Some(vec![31])), None);
    assert_eq!(header_text(&None), None);
}

#[test]
fn client_keys_tell_the_kind_of_credentials() {
    assert_eq!(extract_client_key(&no_headers()), "anonymous");
    let encoded = BASE64_STANDARD.encode("pk:sk");
    assert_eq!(extract_client_key(&header(&format!("Basic {encoded}"))), "basic:pk");
    assert_eq!(extract_client_key(&header("Bearer tok")), "bearer:tok");
}

#[test]
fn basic_credentials_of_projects_are_resolved() {
    let registry = AuthRegistry::from_config(
        "default".to_string(),
        "t".to_string(),
        None,
        None,
        None,
        None,
        Some("team-a:pk:sk"),
    );
    assert!(registry.has_basic_auth_configured());
    let a = registry.resolve_basic("pk", "sk").unwrap();
    assert_eq!(a.project_id, "team-a");
    assert_eq!(a.access, AuthAccess::Write);
    assert!(registry.resolve_basic("pk", "other").is_none());

    let general = AuthRegistry::from_config(
        "main".to_string(),
        "t".to_string(),
        None,
        Some("public".to_string()),
        Some("secret".to_string()),
        None,
        None,
    );
    assert_eq!(general.default_project_id(), "main");
    assert_eq!(general.resolve_basic("public", "secret").unwrap().project_id, "main");
    assert!(!single_token("t", None).has_basic_auth_configured());
}

#[test]
fn contexts_are_resolved_from_headers() {
    let registry = single_token("w", Some("r"));
    let context = resolve_auth_context(&registry, &header("Bearer r")).unwrap();
    assert_eq!(context.access, AuthAccess::Read);
    assert!(resolve_auth_context(&registry, &header("Bearer x")).is_none());
    assert!(resolve_auth_context(&registry, &no_headers()).is_none());
}

#[test]
fn readers_never_write() {
    let gate = gate(single_token("w", Some("r")));
    let decision = gate.auth(&Method::Post, "/v1/metrics/batch", &header("Bearer r"));
    assert!(matches!(decision, Decision::Forbid));
    let reply = decision.reply().unwrap();
    assert_eq!(reply.status, 403);
    assert!(matches!(
        gate.auth(&Method::Get, "/api/public/metrics/names", &header("Bearer r")),
        Decision::Admit(AuthContext { access: AuthAccess::Read, .. })
    ));
    assert!(matches!(
        gate.auth(&Method::Post, "/v1/metrics/batch", &header("Bearer w")),
        Decision::Admit(AuthContext { access: AuthAccess::Write, .. })
    ));
}

#[test]
fn unknown_credentials_are_refused() {
    let gate = gate(single_token("w", None));
    let decision = gate.auth(&Method::Get, "/api/public/traces", &no_headers());
    assert!(matches!(decision, Decision::Refuse));
    assert_eq!(decision.reply().unwrap().status, 401);
    assert!(matches!(
        gate.auth(&Method::Get, "/api/public/traces", &header("Bearer nope")),
        Decision::Refuse
    ));
    assert!(matches!(
        gate.auth(&Method::Options, "/api/public/traces", &no_headers()),
        Decision::Preflight
    ));
}

#[test]
fn compatibility_opens_two_routes_without_credentials() {
    let open = Gate {
        registry: single_token("w", None),
        langfuse_public_key: None,
        langfuse_secret_key: None,
        allow_unauthenticated_compat: true,
    };
    assert!(matches!(
        open.auth(&Method::Get, "/api/public/projects", &no_headers()),
        Decision::Admit(_)
    ));
    assert!(matches!(
        open.auth(&Method::Post, "/api/public/otel/v1/traces", &no_headers()),
        Decision::Admit(_)
    ));
    for (method, path) in [
        (Method::Get, "/api/public/traces"),
        (Method::Post, "/api/public/otel/v1/metrics"),
        (Method::Put, "/api/public/projects"),
        (Method::Post, "/api/public/projects"),
        (Method::Get, "/api/public/otel/v1/traces"),
    ] {
        let decision = open.auth(&method, path, &no_headers());
        assert!(matches!(decision, Decision::Refuse));
        assert_eq!(decision.reply().unwrap().status, 401);
    }
    let closed = gate(single_token("w", None));
    assert!(matches!(
        closed.auth(&Method::Get, "/api/public/projects", &no_headers()),
        Decision::Refuse
    ));
}

#[test]
fn write_routes_are_known() {
    assert!(is_write_route(&Method::Post, "/v1/l/batch"));
    assert!(is_write_route(&Method::Post, "/v1/metrics/batch"));
    assert!(!is_write_route(&Method::Get, "/v1/l/batch"));
    assert!(!is_write_route(&Method::Get, "/api/public/traces"));
}

#[test]
fn require_write_refuses_readers() {
    let reader = Authenticated(AuthContext {
        project_id: "p".to_string(),
        access: AuthAccess::Read,
    });
    assert_eq!(reader.project_id(), "p");
    match reader.require_write() {
        Err(ApiError::Forbidden(m)) => assert_eq!(m, "read-only token cannot write"),
        _ => panic!("expected an error"),
    }
    let writer = Authenticated(AuthContext {
        project_id: "p".to_string(),
        access: AuthAccess::Write,
    });
    assert!(writer.require_write().is_ok());
}

#[test]
fn errors_have_their_replies() {
    let cases = [
        (ApiError::BadRequest("why".to_string()), 400, "BAD_REQUEST", "why"),
        (ApiError::NotFound, 404, "NOT_FOUND", "Not Found"),
        (ApiError::Forbidden("no".to_string()), 403, "FORBIDDEN", "no"),
        (ApiError::TooManyRequests, 429, "TOO_MANY_REQUESTS", "Too Many Requests"),
        (ApiError::ServiceUnavailable, 503, "SERVICE_UNAVAILABLE", "Service Unavailable"),
        (ApiError::Internal("disk".to_string()), 500, "INTERNAL_ERROR", "Internal Error"),
        (ApiError::Sqlx("row".to_string()), 500, "INTERNAL_ERROR", "Internal Error"),
    ];
    for (e, status, code, message) in cases {
        let reply = e.into_reply();
        assert_eq!(reply.status, status);
        assert_eq!(reply.code, code);
        assert_eq!(reply.message, message);
    }
    assert_eq!(ApiError::Internal("disk".to_string()).log_text(), "internal error: disk");
    assert_eq!(ApiError::BadRequest("x".to_string()).log_text(), "bad request: x");
}

#[test]
fn tokens_are_masked() {
    assert_eq!(mask_client_key("bearer:very-long-secret"), "bearer:very-lon***");
    assert_eq!(mask_client_key("bearer:12345678"), "bearer:12345678***");
    assert_eq!(mask_client_key("bearer:short"), "bearer:short***");
    assert_eq!(mask_client_key("basic:pk"), "basic:pk");
    assert_eq!(mask_client_key("anonymous"), "anonymous");
    assert_eq!(mask_client_key("bearer:very-long-a"), mask_client_key("bearer:very-long-other"));
}

#[test]
fn ingest_counts_add_up() {
    let mut s = IngestStats::new();
    assert_eq!(s.failure_share(), None);
    s.record_enqueued(2);
    s.record_queue_rejected(1);
    s.record_write(true, 7);
    s.record_write(true, 5);
    s.record_write(true, 0);
    s.record_write(false, 9);
    assert_eq!(s.enqueued, 2);
    assert_eq!(s.queue_rejected, 1);
    assert_eq!(s.batches_written, 3);
    assert_eq!(s.batches_failed, 1);
    assert_eq!(s.items_written, 12);
    assert_eq!(s.failure_share(), Some(Share { part: 1, whole: 4 }));
    s.record_batches_failed(u64::MAX);
    assert_eq!(s.batches_failed, 0);
}

#[test]
fn rejections_are_counted_per_client() {
    let mut s = RateLimitStats::default();
    let now = Timestamp::new(1_700_000_000, 0).unwrap();
    assert_eq!(s.rejection_share(), None);
    assert!(settle(&mut s, "bearer:a", None, &now).is_none());
    let told = settle(&mut s, "bearer:a", Some(0), &now).unwrap();
    assert_eq!(told.retry_after, "1");
    assert_eq!(told.reset_at, "2023-11-14T22:13:21+00:00");
    let told = settle(&mut s, "bearer:b", Some(30), &now).unwrap();
    assert_eq!(told.retry_after, "30");
    assert_eq!(told.reset_at, "2023-11-14T22:13:50+00:00");
    settle(&mut s, "bearer:b", Some(1), &now);
    assert_eq!(s.total_allowed, 1);
    assert_eq!(s.total_rejected, 3);
    assert_eq!(s.rejection_share(), Some(Share { part: 3, whole: 4 }));
    let top = s.top_rejected();
    assert_eq!(top.len(), 2);
    assert_eq!((top[0].token.as_str(), top[0].count), ("bearer:b***", 2));
    assert_eq!((top[1].token.as_str(), top[1].count), ("bearer:a***", 1));
}

#[test]
fn only_the_highest_counts_are_listed() {
    let all: Vec<TokenCount> =
        (0..30u64).map(|n| TokenCount { token: format!("t{n}"), count: n }).collect();
    let top = top_counts(all);
    assert_eq!(top.len(), 20);
    assert_eq!(top[0].count, 29);
    assert_eq!(top[19].count, 10);
}

#[test]
fn preflight_requests_are_not_limited() {
    assert!(!is_limited(&Method::Options));
    assert!(is_limited(&Method::Get));
}
