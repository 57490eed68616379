//! What the headers of a request say of its sender, and whether it is let in.

use vstd::prelude::*;

use crate::auth_context::{is_write_route, AuthAccess, AuthContext, AuthRegistry, Method};
use crate::auth_context;
use crate::encoding::{base64_decode, utf8_text};
use crate::encoding;
use crate::error::Reply;
use crate::text::{join, same, split_once, strip_prefix, trim};
use crate::text;

verus! {

/// The headers that the library reads, as the bytes that came.
#[derive(Debug)]
pub struct RequestHeaders {
    pub authorization: Option<Vec<u8>>,
    pub forwarded_proto: Option<Vec<u8>>,
    pub host: Option<Vec<u8>>,
}

/// Whether a byte may stand in a header that is read as text: visible ASCII, a
/// space or a tab.
pub open spec fn is_header_byte(b: u8) -> bool {
    32 <= b < 127 || b == 9
}

/// The text of a header, if all its bytes are visible ASCII, spaces or tabs.
pub open spec fn header_chars(bytes: Seq<u8>) -> Option<Seq<char>> {
    if forall|i: int| 0 <= i < bytes.len() ==> is_header_byte(#[trigger] bytes[i]) {
        Some(bytes.map_values(|b: u8| b as char))
    } else {
        None
    }
}

/// The text of a header that may be missing.
pub open spec fn header_value(h: Option<Vec<u8>>) -> Option<Seq<char>> {
    match h {
        Some(bytes) => header_chars(bytes@),
        None => None,
    }
}

/// The text of a header that may be missing.
pub fn header_text(header: &Option<Vec<u8>>) -> (r: Option<String>)
    ensures
        text::opt_text(r) == header_value(*header),
{
    match header {
        None => None,
        Some(bytes) => {
            let mut s = String::new();
            let mut i: usize = 0;
            while i < bytes.len()
                invariant
                    0 <= i <= bytes@.len(),
                    header_value(*header) == header_chars(bytes@),
                    forall|j: int| 0 <= j < i ==> is_header_byte(#[trigger] bytes@[j]),
                    s@ == bytes@.take(i as int).map_values(|b: u8| b as char),
                decreases bytes.len() - i,
            {
                let b = bytes[i];
                if !((32 <= b && b < 127) || b == 9) {
                    assert(!is_header_byte(bytes@[i as int]));
                    return None;
                }
                s.push(b as char);
                i += 1;
                assert(bytes@.take(i as int).map_values(|b: u8| b as char) == bytes@.take(
                    i - 1,
                ).map_values(|b: u8| b as char).push(b as char));
            }
            assert(bytes@.take(bytes@.len() as int) == bytes@);
            Some(s)
        },
    }
}

/// What an authorization header holds.
#[derive(Debug)]
pub enum AuthHeader {
    Bearer(String),
    Basic { username: String, password: String },
}

/// What an authorization header holds, its texts taken as characters.
pub ghost enum Credentials {
    Bearer(Seq<char>),
    Basic(Seq<char>, Seq<char>),
}

impl View for AuthHeader {
    type V = Credentials;

    open spec fn view(&self) -> Credentials {
        match self {
            AuthHeader::Bearer(t) => Credentials::Bearer(t@),
            AuthHeader::Basic { username, password } => Credentials::Basic(username@, password@),
        }
    }
}

/// The credentials in decoded bytes: the text before and after the first colon.
pub open spec fn basic_in(decoded: Seq<u8>) -> Option<Credentials> {
    if vstd::utf8::valid_utf8(decoded) {
        match text::cut_at_first(vstd::utf8::decode_utf8(decoded), ':') {
            Some((u, p)) => Some(Credentials::Basic(u, p)),
            None => None,
        }
    } else {
        None
    }
}

/// The credentials in the text of an authorization header: what follows
/// `Bearer`, or the user and password that follow `Basic` in base64.
pub open spec fn credentials_in(value: Seq<char>) -> Option<Credentials> {
    let t = text::trimmed(value);
    match text::after_prefix(t, "Bearer "@) {
        Some(rest) => Some(Credentials::Bearer(text::trimmed(rest))),
        None => match text::after_prefix(t, "Basic "@) {
            Some(rest) => match encoding::base64_bytes(
                vstd::utf8::encode_utf8(text::trimmed(rest)),
            ) {
                Some(decoded) => basic_in(decoded),
                None => None,
            },
            None => None,
        },
    }
}

/// The credentials that a request carries.
pub open spec fn credentials_of(headers: RequestHeaders) -> Option<Credentials> {
    match header_value(headers.authorization) {
        Some(value) => credentials_in(value),
        None => None,
    }
}

/// The credentials in decoded bytes.
pub fn basic_credentials(decoded: &Vec<u8>) -> (r: Result<AuthHeader, ()>)
    ensures
        match r {
            Ok(a) => basic_in(decoded@) == Some(a@),
            Err(_) => basic_in(decoded@) is None,
        },
{
    match utf8_text(decoded) {
        None => Err(()),
        Some(s) => match split_once(s.as_str(), ':') {
            Some((username, password)) => Ok(AuthHeader::Basic { username, password }),
            None => Err(()),
        },
    }
}

/// The credentials that a request carries.
pub fn extract_auth(headers: &RequestHeaders) -> (r: Result<AuthHeader, ()>)
    ensures
        match r {
            Ok(a) => credentials_of(*headers) == Some(a@),
            Err(_) => credentials_of(*headers) is None,
        },
{
    match header_text(&headers.authorization) {
        None => Err(()),
        Some(value) => {
            let t = trim(value.as_str());
            if let Some(rest) = strip_prefix(t.as_str(), "Bearer ") {
                return Ok(AuthHeader::Bearer(trim(rest.as_str())));
            }
            if let Some(rest) = strip_prefix(t.as_str(), "Basic ") {
                let encoded = trim(rest.as_str());
                return match base64_decode(encoded.as_str().as_bytes()) {
                    Ok(decoded) => basic_credentials(&decoded),
                    Err(_) => Err(()),
                };
            }
            Err(())
        },
    }
}

/// The key under which a client's requests are counted.
pub open spec fn client_key(c: Option<Credentials>) -> Seq<char> {
    match c {
        Some(Credentials::Bearer(t)) => "bearer:"@ + t,
        Some(Credentials::Basic(u, _)) => "basic:"@ + u,
        None => "anonymous"@,
    }
}

/// The key under which a client's requests are counted.
pub fn extract_client_key(headers: &RequestHeaders) -> (r: String)
    ensures
        r@ == client_key(credentials_of(*headers)),
{
    match extract_auth(headers) {
        Ok(AuthHeader::Bearer(token)) => join("bearer:", token.as_str()),
        Ok(AuthHeader::Basic { username, .. }) => join("basic:", username.as_str()),
        Err(()) => "anonymous".to_owned(),
    }
}

/// What a registry grants to credentials.
pub open spec fn granted(registry: &AuthRegistry, c: Option<Credentials>) -> Option<
    auth_context::Grant,
> {
    match c {
        Some(Credentials::Bearer(t)) => if registry.tokens().contains_key(t) {
            Some(registry.tokens()[t])
        } else {
            None
        },
        Some(Credentials::Basic(u, p)) => if registry.basics().contains_key((u, p)) {
            Some(registry.basics()[(u, p)])
        } else {
            None
        },
        None => None,
    }
}

/// What a registry grants to the sender of a request.
pub fn resolve_auth_context(registry: &AuthRegistry, headers: &RequestHeaders) -> (r: Option<
    AuthContext,
>)
    ensures
        match r {
            Some(c) => granted(registry, credentials_of(*headers)) == Some(c@),
            None => granted(registry, credentials_of(*headers)) is None,
        },
{
    match extract_auth(headers) {
        Ok(AuthHeader::Bearer(token)) => registry.resolve_bearer(token.as_str()),
        Ok(AuthHeader::Basic { username, password }) => registry.resolve_basic(
            username.as_str(),
            password.as_str(),
        ),
        Err(()) => None,
    }
}

/// How requests are let in.
#[derive(Debug)]
pub struct Gate {
    pub registry: AuthRegistry,
    pub langfuse_public_key: Option<String>,
    pub langfuse_secret_key: Option<String>,
    pub allow_unauthenticated_compat: bool,
}

/// What becomes of a request.
#[derive(Debug)]
pub enum Decision {
    /// It goes on with no context: a preflight request carries no credentials.
    Preflight,
    /// It goes on in this context.
    Admit(AuthContext),
    /// Its token may only read.
    Forbid,
    /// It carries nothing that is known.
    Refuse,
}

/// What becomes of a request, its context taken as a grant.
pub ghost enum Outcome {
    Preflight,
    Admit(auth_context::Grant),
    Forbid,
    Refuse,
}

impl View for Decision {
    type V = Outcome;

    open spec fn view(&self) -> Outcome {
        match self {
            Decision::Preflight => Outcome::Preflight,
            Decision::Admit(c) => Outcome::Admit(c@),
            Decision::Forbid => Outcome::Forbid,
            Decision::Refuse => Outcome::Refuse,
        }
    }
}

/// Whether a route may be opened to requests without credentials: the list of
/// projects, and the intake of traces.
pub open spec fn is_compat(method: Method, path: Seq<char>) -> bool {
    ||| method == Method::Get && path == "/api/public/projects"@
    ||| method == Method::Post && path == "/api/public/otel/v1/traces"@
}

impl Gate {
    /// Whether the compatible routes are open: that has been asked for, and there
    /// are no credentials that a client could be expected to send.
    pub open spec fn open_compat(&self) -> bool {
        &&& self.allow_unauthenticated_compat
        &&& self.registry.basics() == Map::<(Seq<char>, Seq<char>), auth_context::Grant>::empty()
        &&& self.langfuse_public_key is None
        &&& self.langfuse_secret_key is None
    }

    /// What becomes of a request.
    pub open spec fn outcome(&self, method: Method, path: Seq<char>, c: Option<Credentials>) -> Outcome {
        if method == Method::Options {
            Outcome::Preflight
        } else {
            match granted(&self.registry, c) {
                Some(g) => if auth_context::writes(method, path) && g.access == AuthAccess::Read {
                    Outcome::Forbid
                } else {
                    Outcome::Admit(g)
                },
                None => if is_compat(method, path) && self.open_compat() && !(c matches Some(
                    Credentials::Bearer(_),
                )) {
                    Outcome::Admit(
                        auth_context::Grant {
                            project: self.registry.default_project(),
                            access: AuthAccess::Write,
                        },
                    )
                } else {
                    Outcome::Refuse
                },
            }
        }
    }

    /// What becomes of a request.
    pub fn auth(&self, method: &Method, path: &str, headers: &RequestHeaders) -> (r: Decision)
        ensures
            r@ == self.outcome(*method, path@, credentials_of(*headers)),
    {
        if *method == Method::Options {
            return Decision::Preflight;
        }
        let is_langfuse_compat = (*method == Method::Get && same(path, "/api/public/projects")) || (
        *method == Method::Post && same(path, "/api/public/otel/v1/traces"));
        let open_compat = self.allow_unauthenticated_compat
            && !self.registry.has_basic_auth_configured() && self.langfuse_public_key.is_none()
            && self.langfuse_secret_key.is_none();
        if let Some(context) = resolve_auth_context(&self.registry, headers) {
            if is_write_route(method, path) && context.access == AuthAccess::Read {
                return Decision::Forbid;
            }
            return Decision::Admit(context);
        }
        let named_by_token = match extract_auth(headers) {
            Ok(AuthHeader::Bearer(_)) => true,
            _ => false,
        };
        if is_langfuse_compat && open_compat && !named_by_token {
            Decision::Admit(
                AuthContext {
                    project_id: self.registry.default_project_id().to_owned(),
                    access: AuthAccess::Write,
                },
            )
        } else {
            Decision::Refuse
        }
    }
}

impl Decision {
    /// What a client is told whose request does not go on.
    pub fn reply(&self) -> (r: Option<Reply>)
        ensures
            match self@ {
                Outcome::Preflight => r is None,
                Outcome::Admit(_) => r is None,
                Outcome::Forbid => r matches Some(a) && a.status == 403 && a.code@ == "FORBIDDEN"@
                    && a.message@ == "read-only token cannot write"@,
                Outcome::Refuse => r matches Some(a) && a.status == 401 && a.code@
                    == "UNAUTHORIZED"@ && a.message@ == "Unauthorized"@,
            },
    {
        match self {
            Decision::Preflight => None,
            Decision::Admit(_) => None,
            Decision::Forbid => Some(
                Reply {
                    status: 403,
                    code: "FORBIDDEN",
                    message: "read-only token cannot write".to_owned(),
                },
            ),
            Decision::Refuse => Some(
                Reply { status: 401, code: "UNAUTHORIZED", message: "Unauthorized".to_owned() },
            ),
        }
    }
}

/// A token that may only read is never let through to a route that writes.
pub proof fn lemma_reader_never_writes(gate: &Gate, method: Method, path: Seq<char>, c: Option<Credentials>)
    requires
        auth_context::writes(method, path),
        granted(&gate.registry, c) matches Some(g) && g.access == AuthAccess::Read,
    ensures
        gate.outcome(method, path, c) == Outcome::Forbid,
{
}

/// A request is let in to the project that its credentials belong to, and to no
/// other.
pub proof fn lemma_admitted_to_own_project(gate: &Gate, method: Method, path: Seq<char>, c: Option<Credentials>)
    requires
        granted(&gate.registry, c) is Some,
    ensures
        gate.outcome(method, path, c) matches Outcome::Admit(g) ==> Some(g) == granted(
            &gate.registry,
            c,
        ),
{
}

/// Credentials that are not known are refused, unless they are no token and the
/// route is one of those opened on purpose.
pub proof fn lemma_unknown_refused(gate: &Gate, method: Method, path: Seq<char>, c: Option<Credentials>)
    requires
        granted(&gate.registry, c) is None,
        method != Method::Options,
        !gate.open_compat() || !is_compat(method, path) || c matches Some(Credentials::Bearer(_)),
    ensures
        gate.outcome(method, path, c) == Outcome::Refuse,
{
}

/// Without credentials a request that is no preflight request goes on if and only
/// if the compatible routes are open and it is for one of them; it then
/// writes to the default project.
pub proof fn lemma_without_credentials(gate: &Gate, method: Method, path: Seq<char>)
    requires
        method != Method::Options,
    ensures
        gate.outcome(method, path, None) == if gate.open_compat() && is_compat(method, path) {
            Outcome::Admit(
                auth_context::Grant {
                    project: gate.registry.default_project(),
                    access: AuthAccess::Write,
                },
            )
        } else {
            Outcome::Refuse
        },
{
}

/// A user and a password that are written into a header are read back from it,
/// where the user's name holds no colon.
pub proof fn lemma_basic_header_read_back(user: Seq<char>, password: Seq<char>, encoded: Seq<char>)
    requires
        !user.contains(':'),
        encoded.len() > 0,
        forall|i: int| 0 <= i < encoded.len() ==> encoding::is_base64_char(#[trigger] encoded[i]),
        encoding::base64_bytes(vstd::utf8::encode_utf8(encoded)) == Some(
            vstd::utf8::encode_utf8(user + seq![':'] + password),
        ),
    ensures
        credentials_in("Basic "@ + encoded) == Some(Credentials::Basic(user, password)),
{
    reveal_strlit("Basic ");
    reveal_strlit("Bearer ");
    let value = "Basic "@ + encoded;
    assert(encoding::is_base64_char(encoded[0]));
    assert(encoding::is_base64_char(encoded[encoded.len() - 1]));
    assert(value[0] == 'B');
    assert(value.last() == encoded.last());
    text::lemma_trimmed_keeps(value);
    assert(value[1] == 'a');
    assert(!text::begins_with(value, "Bearer "@)) by {
        if text::begins_with(value, "Bearer "@) {
            assert(value.take(7)[1] == value[1]);
            assert("Bearer "@[1] == 'e');
        }
    }
    assert(value.take(6) == "Basic "@);
    assert(value.skip(6) == encoded);
    text::lemma_trimmed_keeps(encoded);
    let pair = user + seq![':'] + password;
    vstd::utf8::encode_utf8_valid_utf8(pair);
    vstd::utf8::encode_utf8_decode_utf8(pair);
    assert(pair[user.len() as int] == ':');
    assert forall|j: int| 0 <= j < user.len() implies pair[j] != ':' by {
        assert(pair[j] == user[j]);
    }
    text::lemma_cut_at(pair, ':', user.len() as int);
    assert(pair.take(user.len() as int) == user);
    assert(pair.skip(user.len() as int + 1) == password);
}

/// A token that is written into a header is read back from it, where no white
/// space stands at its ends.
pub proof fn lemma_bearer_header_read_back(token: Seq<char>)
    requires
        token.len() > 0,
        !text::is_space(token[0]),
        !text::is_space(token.last()),
    ensures
        credentials_in("Bearer "@ + token) == Some(Credentials::Bearer(token)),
{
    reveal_strlit("Bearer ");
    let value = "Bearer "@ + token;
    assert(value[0] == 'B');
    assert(value.last() == token.last());
    text::lemma_trimmed_keeps(value);
    assert(value.take(7) == "Bearer "@);
    assert(value.skip(7) == token);
    text::lemma_trimmed_keeps(token);
}

}
