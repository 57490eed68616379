//! Laws of who is let in: how tokens and credentials are configured, how a
//! request carries them, and which requests write.

use vstd::prelude::*;

use crate::auth;
use crate::auth_context;
use crate::auth_context::{AuthAccess, Method};
use crate::encoding;
use crate::text;
use crate::text_laws;

verus! {

/// A text with a colon in it is cut at the first one.
proof fn lemma_cut_at_colon(a: Seq<char>, b: Seq<char>)
    requires
        !a.contains(':'),
    ensures
        text::cut_at_first(a + seq![':'] + b, ':') == Some((a, b)),
{
    let s = a + seq![':'] + b;
    assert forall|j: int| 0 <= j < a.len() implies s[j] != ':' by {
        assert(s[j] == a[j]);
    }
    assert(s[a.len() as int] == ':');
    text::lemma_cut_at(s, ':', a.len() as int);
    assert(s.take(a.len() as int) == a);
    assert(s.skip(a.len() as int + 1) == b);
}

/// The entry `project:write` grants the token `write` that it may write to the
/// project, and changes nothing of any other token.
pub proof fn lemma_write_entry(
    m: Map<Seq<char>, auth_context::Grant>,
    project: Seq<char>,
    write: Seq<char>,
    other: Seq<char>,
)
    requires
        !project.contains(':'),
        !write.contains(':'),
    ensures
        ({
            let after = auth_context::with_token_entry(m, project + seq![':'] + write);
            &&& after.contains_key(write)
            &&& after[write].project == project
            &&& after[write].access == AuthAccess::Write
            &&& other != write ==> after.contains_key(other) == m.contains_key(other)
            &&& other != write && m.contains_key(other) ==> after[other] == m[other]
        }),
{
    lemma_cut_at_colon(project, write);
    assert(text::cut_at_first(write, ':') is None);
}

/// The entry `project:write:read` grants the token `read`, which is all that
/// follows the second colon, that it may only read; the token `write`, where it
/// is another one, may write. It changes nothing of any third token.
pub proof fn lemma_read_entry(
    m: Map<Seq<char>, auth_context::Grant>,
    project: Seq<char>,
    write: Seq<char>,
    read: Seq<char>,
    other: Seq<char>,
)
    requires
        !project.contains(':'),
        !write.contains(':'),
    ensures
        ({
            let after = auth_context::with_token_entry(
                m,
                project + seq![':'] + (write + seq![':'] + read),
            );
            &&& after.contains_key(read)
            &&& after[read].project == project
            &&& after[read].access == AuthAccess::Read
            &&& after.contains_key(write)
            &&& after[write].project == project
            &&& write != read ==> after[write].access == AuthAccess::Write
            &&& other != write && other != read ==> after.contains_key(other) == m.contains_key(
                other,
            )
            &&& other != write && other != read && m.contains_key(other) ==> after[other]
                == m[other]
        }),
{
    lemma_cut_at_colon(project, write + seq![':'] + read);
    lemma_cut_at_colon(write, read);
}

/// An entry without a colon grants nothing, of tokens or of passwords.
pub proof fn lemma_entry_without_colon(
    tokens: Map<Seq<char>, auth_context::Grant>,
    basics: Map<(Seq<char>, Seq<char>), auth_context::Grant>,
    entry: Seq<char>,
)
    requires
        !entry.contains(':'),
    ensures
        auth_context::with_token_entry(tokens, entry) == tokens,
        auth_context::with_basic_entry(basics, entry) == basics,
{
    assert(text::cut_at_first(entry, ':') is None);
}

/// The entry `project:user:password` lets the user write to the project with
/// that password, which may hold colons, and changes nothing of any other pair.
/// With one colon alone an entry grants nothing.
pub proof fn lemma_basic_entry(
    m: Map<(Seq<char>, Seq<char>), auth_context::Grant>,
    project: Seq<char>,
    user: Seq<char>,
    password: Seq<char>,
    other: (Seq<char>, Seq<char>),
)
    requires
        !project.contains(':'),
        !user.contains(':'),
    ensures
        ({
            let after = auth_context::with_basic_entry(
                m,
                project + seq![':'] + (user + seq![':'] + password),
            );
            &&& after.contains_key((user, password))
            &&& after[(user, password)].project == project
            &&& after[(user, password)].access == AuthAccess::Write
            &&& other != (user, password) ==> after.contains_key(other) == m.contains_key(other)
            &&& other != (user, password) && m.contains_key(other) ==> after[other] == m[other]
        }),
        auth_context::with_basic_entry(m, project + seq![':'] + user) == m,
{
    lemma_cut_at_colon(project, user + seq![':'] + password);
    lemma_cut_at_colon(user, password);
    lemma_cut_at_colon(project, user);
    assert(text::cut_at_first(user, ':') is None);
}

/// Entries take effect one after the other: a list with one more entry at its
/// end grants what the list grants, changed by that entry, and no entries grant
/// nothing.
pub proof fn lemma_entries_in_order(entries: Seq<Seq<char>>, entry: Seq<char>)
    ensures
        auth_context::token_grants(entries.push(entry)) == auth_context::with_token_entry(
            auth_context::token_grants(entries),
            entry,
        ),
        auth_context::basic_grants(entries.push(entry)) == auth_context::with_basic_entry(
            auth_context::basic_grants(entries),
            entry,
        ),
        auth_context::token_grants(Seq::empty()) == Map::<
            Seq<char>,
            auth_context::Grant,
        >::empty(),
        auth_context::basic_grants(Seq::empty()) == Map::<
            (Seq<char>, Seq<char>),
            auth_context::Grant,
        >::empty(),
{
    assert(entries.push(entry).drop_last() == entries);
}

/// Where no list of tokens is configured, the general token may write to the
/// default project, the general token for reading, where there is one and it is
/// another, may read from it, and no other token is known.
pub proof fn lemma_general_tokens(
    project: Seq<char>,
    token: Seq<char>,
    read_token: Option<Seq<char>>,
    other: Seq<char>,
)
    ensures
        ({
            let m = auth_context::configured_tokens(project, token, read_token, None);
            &&& m.contains_key(token)
            &&& m[token].project == project
            &&& read_token != Some(token) ==> m[token].access == AuthAccess::Write
            &&& read_token matches Some(r) ==> m.contains_key(r) && m[r].project == project
                && m[r].access == AuthAccess::Read
            &&& other != token && read_token != Some(other) ==> !m.contains_key(other)
        }),
{
}

/// Where no list of users is configured, the pair of keys, where both are set,
/// may write to the default project, and no other pair is known: with one key
/// alone there is none.
pub proof fn lemma_general_keys(
    project: Seq<char>,
    public_key: Option<Seq<char>>,
    secret_key: Option<Seq<char>>,
    user: Seq<char>,
    password: Seq<char>,
)
    ensures
        ({
            let m = auth_context::configured_basics(project, public_key, secret_key, None);
            &&& m.contains_key((user, password)) <==> public_key == Some(user) && secret_key
                == Some(password)
            &&& m.contains_key((user, password)) ==> m[(user, password)].project == project
            &&& m.contains_key((user, password)) ==> m[(user, password)].access
                == AuthAccess::Write
        }),
{
}

/// Where the projects have users of their own, the pair of keys is not known
/// beside them.
pub proof fn lemma_project_users_replace_keys(
    project: Seq<char>,
    public_key: Option<Seq<char>>,
    secret_key: Option<Seq<char>>,
    raw: Seq<char>,
    pair: (Seq<char>, Seq<char>),
)
    requires
        auth_context::basic_grants(text::items_of(raw)).contains_key(pair),
    ensures
        auth_context::configured_basics(project, public_key, secret_key, Some(raw))
            == auth_context::basic_grants(text::items_of(raw)),
{
}

/// A request writes if and only if it posts to one of the five routes that take
/// batches, traces, metrics or the announcement of a file, puts to a path that
/// ends in `/upload`, or patches a path below `/api/public/media/`. A request
/// that gets anything never writes.
pub proof fn lemma_write_routes(path: Seq<char>)
    ensures
        auth_context::writes(Method::Post, path) <==> {
            ||| path == "/v1/l/batch"@
            ||| path == "/v1/metrics/batch"@
            ||| path == "/api/public/otel/v1/traces"@
            ||| path == "/api/public/otel/v1/metrics"@
            ||| path == "/api/public/media"@
        },
        auth_context::writes(Method::Put, path) <==> exists|a: Seq<char>|
            path == #[trigger] (a + "/upload"@),
        auth_context::writes(Method::Patch, path) <==> exists|b: Seq<char>|
            path == #[trigger] ("/api/public/media/"@ + b),
        !auth_context::writes(Method::Get, path),
        !auth_context::writes(Method::Options, path),
        !auth_context::writes(Method::Other, path),
{
    let u = "/upload"@;
    let m = "/api/public/media/"@;
    if text::finishes_with(path, u) {
        assert(path == path.take(path.len() - u.len()) + u);
    }
    if exists|a: Seq<char>| path == #[trigger] (a + u) {
        let a = choose|a: Seq<char>| path == #[trigger] (a + u);
        assert(path.skip(path.len() - u.len()) == u);
    }
    if text::begins_with(path, m) {
        assert(path == m + path.skip(m.len() as int));
    }
    if exists|b: Seq<char>| path == #[trigger] (m + b) {
        let b = choose|b: Seq<char>| path == #[trigger] (m + b);
        assert(path.take(m.len() as int) == m);
    }
}

/// A header is read if and only if each of its bytes is a tab or from the space
/// to the tilde; its characters then have the numbers of its bytes.
pub proof fn lemma_header_read(bytes: Seq<u8>)
    ensures
        auth::header_chars(bytes) is Some <==> forall|i: int|
            0 <= i < bytes.len() ==> (#[trigger] bytes[i] == 9 || (bytes[i] >= 32 && bytes[i]
                <= 126)),
        auth::header_chars(bytes) matches Some(t) ==> t.len() == bytes.len() && forall|i: int|
            0 <= i < bytes.len() ==> #[trigger] t[i] as int == bytes[i] as int,
{
    if auth::header_chars(bytes) is Some {
        assert forall|i: int| 0 <= i < bytes.len() implies (#[trigger] bytes[i] == 9 || (bytes[i]
            >= 32 && bytes[i] <= 126)) by {
            assert(auth::is_header_byte(bytes[i]));
        }
    }
    if forall|i: int|
        0 <= i < bytes.len() ==> (#[trigger] bytes[i] == 9 || (bytes[i] >= 32 && bytes[i] <= 126)) {
        assert forall|i: int| 0 <= i < bytes.len() implies auth::is_header_byte(
            #[trigger] bytes[i],
        ) by {}
    }
}

/// White space around an authorization header counts for nothing.
pub proof fn lemma_header_trimmed(value: Seq<char>)
    ensures
        auth::credentials_in(text::trimmed(value)) == auth::credentials_in(value),
{
    text::lemma_trim_idempotent(value);
}

/// A header that names no scheme known carries no credentials.
pub proof fn lemma_other_schemes(value: Seq<char>)
    requires
        value.len() > 0,
        !text::is_space(value[0]),
        !text::is_space(value.last()),
        !"Bearer "@.is_prefix_of(value),
        !"Basic "@.is_prefix_of(value),
    ensures
        auth::credentials_in(value) is None,
{
    text::lemma_trimmed_keeps(value);
    reveal_strlit("Bearer ");
    reveal_strlit("Basic ");
    if text::begins_with(value, "Bearer "@) {
        assert("Bearer "@.is_prefix_of(value)) by {
            assert(value.take(7) == value.subrange(0, 7));
        }
    }
    if text::begins_with(value, "Basic "@) {
        assert("Basic "@.is_prefix_of(value)) by {
            assert(value.take(6) == value.subrange(0, 6));
        }
    }
}

/// Requests are counted by token and by user: two tokens share a count only
/// where they are the same token, two users only where they are the same user,
/// whatever their passwords; a token never shares one with a user, and neither
/// does with requests that carry no credentials.
pub proof fn lemma_client_keys(
    t1: Seq<char>,
    t2: Seq<char>,
    u1: Seq<char>,
    p1: Seq<char>,
    u2: Seq<char>,
    p2: Seq<char>,
)
    ensures
        ({
            let bearer1 = auth::client_key(Some(auth::Credentials::Bearer(t1)));
            let bearer2 = auth::client_key(Some(auth::Credentials::Bearer(t2)));
            let basic1 = auth::client_key(Some(auth::Credentials::Basic(u1, p1)));
            let basic2 = auth::client_key(Some(auth::Credentials::Basic(u2, p2)));
            let nobody = auth::client_key(None);
            &&& bearer1 == bearer2 <==> t1 == t2
            &&& basic1 == basic2 <==> u1 == u2
            &&& bearer1 != basic1
            &&& bearer1 != nobody
            &&& basic1 != nobody
            &&& bearer1 == "bearer:"@ + t1
            &&& basic1 == "basic:"@ + u1
            &&& nobody == "anonymous"@
        }),
{
    reveal_strlit("bearer:");
    reveal_strlit("basic:");
    reveal_strlit("anonymous");
    let bearer1 = "bearer:"@ + t1;
    let bearer2 = "bearer:"@ + t2;
    let basic1 = "basic:"@ + u1;
    let basic2 = "basic:"@ + u2;
    assert(bearer1.skip(7) == t1);
    assert(bearer2.skip(7) == t2);
    assert(basic1.skip(6) == u1);
    assert(basic2.skip(6) == u2);
    assert(bearer1[1] == 'e');
    assert(basic1[1] == 'a');
    assert("anonymous"@[0] == 'a');
    assert(bearer1[0] == 'b');
    assert(basic1[0] == 'b');
}

/// What is granted is what the registry holds for that very token, or for that
/// very user with that very password; nobody else is granted anything.
pub proof fn lemma_granted(
    registry: &auth_context::AuthRegistry,
    t: Seq<char>,
    u: Seq<char>,
    p: Seq<char>,
)
    ensures
        auth::granted(registry, Some(auth::Credentials::Bearer(t))) is Some
            <==> registry.tokens().contains_key(t),
        auth::granted(registry, Some(auth::Credentials::Bearer(t))) matches Some(g) ==> g
            == registry.tokens()[t],
        auth::granted(registry, Some(auth::Credentials::Basic(u, p))) is Some
            <==> registry.basics().contains_key((u, p)),
        auth::granted(registry, Some(auth::Credentials::Basic(u, p))) matches Some(g) ==> g
            == registry.basics()[(u, p)],
        auth::granted(registry, None) is None,
{
}

/// A request whose credentials are known goes on in the project that they belong
/// to with the access that they have, unless it writes and they may only read; a
/// preflight request always goes on.
pub proof fn lemma_known_goes_on(
    gate: &auth::Gate,
    method: Method,
    path: Seq<char>,
    c: Option<auth::Credentials>,
    g: auth_context::Grant,
)
    requires
        auth::granted(&gate.registry, c) == Some(g),
    ensures
        method == Method::Options ==> gate.outcome(method, path, c) == auth::Outcome::Preflight,
        method == Method::Get || method == Method::Other ==> gate.outcome(method, path, c)
            == auth::Outcome::Admit(g),
        method != Method::Options && g.access == AuthAccess::Write ==> gate.outcome(method, path, c)
            == auth::Outcome::Admit(g),
{
}

/// A request that is not known goes on only where the server was told to let it,
/// has no user with a password and neither of the two keys, the request is no
/// preflight request and names no token, and it asks for the list of projects
/// or posts traces.
pub proof fn lemma_strangers(
    gate: &auth::Gate,
    method: Method,
    path: Seq<char>,
    c: Option<auth::Credentials>,
)
    requires
        auth::granted(&gate.registry, c) is None,
        method != Method::Options,
    ensures
        gate.outcome(method, path, c) != auth::Outcome::Refuse <==> {
            &&& gate.allow_unauthenticated_compat
            &&& (forall|u: Seq<char>, p: Seq<char>| !gate.registry.basics().contains_key((u, p)))
            &&& gate.langfuse_public_key is None
            &&& gate.langfuse_secret_key is None
            &&& !(c matches Some(auth::Credentials::Bearer(_)))
            &&& {
                ||| method == Method::Get && path == "/api/public/projects"@
                ||| method == Method::Post && path == "/api/public/otel/v1/traces"@
            }
        },
        gate.outcome(method, path, c) == auth::Outcome::Refuse || gate.outcome(method, path, c)
            == auth::Outcome::Admit(
            auth_context::Grant {
                project: gate.registry.default_project(),
                access: AuthAccess::Write,
            },
        ),
{
    let none = Map::<(Seq<char>, Seq<char>), auth_context::Grant>::empty();
    if forall|u: Seq<char>, p: Seq<char>| !gate.registry.basics().contains_key((u, p)) {
        assert forall|k: (Seq<char>, Seq<char>)| !#[trigger] gate.registry.basics().contains_key(
            k,
        ) by {
            assert(!gate.registry.basics().contains_key((k.0, k.1)));
        }
        assert(gate.registry.basics() =~= none);
    }
    if gate.registry.basics() == none {
        assert(forall|u: Seq<char>, p: Seq<char>| !gate.registry.basics().contains_key((u, p)));
    }
}

/// Decoded bytes are credentials if and only if they are well formed UTF-8 with a
/// colon in it: the user stands before the first colon, and the password, which may
/// hold more of them, behind it.
pub proof fn lemma_decoded_credentials(
    user: Seq<char>,
    password: Seq<char>,
    s: Seq<char>,
    bytes: Seq<u8>,
)
    requires
        !user.contains(':'),
        !s.contains(':'),
        !vstd::utf8::valid_utf8(bytes),
    ensures
        auth::basic_in(vstd::utf8::encode_utf8(user + seq![':'] + password)) == Some(
            auth::Credentials::Basic(user, password),
        ),
        auth::basic_in(vstd::utf8::encode_utf8(s)) is None,
        auth::basic_in(bytes) is None,
{
    let pair = user + seq![':'] + password;
    vstd::utf8::encode_utf8_valid_utf8(pair);
    vstd::utf8::encode_utf8_decode_utf8(pair);
    vstd::utf8::encode_utf8_valid_utf8(s);
    vstd::utf8::encode_utf8_decode_utf8(s);
    lemma_cut_at_colon(user, password);
    assert(text::cut_at_first(s, ':') is None);
}

/// White space round a token, and round the encoded user and password, counts for
/// nothing: the token is what is left without it, and what is left is decoded.
pub proof fn lemma_blanks_in_header(a: Seq<char>, value: Seq<char>, b: Seq<char>)
    requires
        text_laws::blank(a),
        text_laws::blank(b),
        value.len() > 0,
        !text::is_space(value[0]),
        !text::is_space(value.last()),
    ensures
        auth::credentials_in("Bearer "@ + a + value + b) == Some(auth::Credentials::Bearer(value)),
        auth::credentials_in("Basic "@ + a + value + b) == match encoding::base64_bytes(
            vstd::utf8::encode_utf8(value),
        ) {
            Some(bytes) => auth::basic_in(bytes),
            None => None,
        },
{
    reveal_strlit("Bearer ");
    reveal_strlit("Basic ");
    lemma_trimmed_header("Bearer "@, a, value, b);
    lemma_trimmed_header("Basic "@, a, value, b);
    let w = "Basic "@ + a + value;
    if text::begins_with(w, "Bearer "@) {
        assert(w.take(7)[1] == w[1]);
        assert(w[1] == 'a');
        assert("Bearer "@[1] == 'e');
    }
}

/// A header without the white space at its end, and what follows the scheme without
/// that at its beginning.
proof fn lemma_trimmed_header(scheme: Seq<char>, a: Seq<char>, value: Seq<char>, b: Seq<char>)
    requires
        text_laws::blank(a),
        text_laws::blank(b),
        value.len() > 0,
        !text::is_space(value[0]),
        !text::is_space(value.last()),
        scheme.len() > 0,
        !text::is_space(scheme[0]),
    ensures
        text::trimmed(scheme + a + value + b) == scheme + a + value,
        text::after_prefix(scheme + a + value, scheme) == Some(a + value),
        text::trimmed(a + value) == value,
{
    let none = Seq::<char>::empty();
    let w = scheme + a + value;
    assert(none + w + b == w + b);
    text_laws::lemma_blanks_around(none, w, b);
    assert(w[0] == scheme[0]);
    assert(w.last() == value.last());
    text::lemma_trimmed_keeps(w);
    assert(w == scheme + (a + value));
    text_laws::lemma_affixes(w, scheme, a + value);
    assert(a + value + none == a + value);
    text_laws::lemma_blanks_around(a, value, none);
    text::lemma_trimmed_keeps(value);
}

}
