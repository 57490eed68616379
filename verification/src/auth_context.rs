//! Who may do what: tokens, credentials and the project each belongs to.

use vstd::prelude::*;

use crate::error::ApiError;
use crate::error;
use crate::text::{ends_with, list_items, same, split_once, starts_with};
use crate::text;

verus! {

/// What a credential allows.
#[derive(Debug, Clone, Copy, PartialEq, Eq, Structural)]
pub enum AuthAccess {
    Read,
    Write,
}

/// On whose behalf a request is made, and what it may do.
#[derive(Debug)]
pub struct AuthContext {
    pub project_id: String,
    pub access: AuthAccess,
}

/// A project and what may be done in it.
pub ghost struct Grant {
    pub project: Seq<char>,
    pub access: AuthAccess,
}

impl View for AuthContext {
    type V = Grant;

    open spec fn view(&self) -> Grant {
        Grant { project: self.project_id@, access: self.access }
    }
}

impl Clone for AuthContext {
    fn clone(&self) -> (r: AuthContext)
        ensures
            r@ == self@,
    {
        AuthContext { project_id: self.project_id.clone(), access: self.access }
    }
}

/// A text cut at its first two colons.
pub open spec fn colon_parts(s: Seq<char>) -> Seq<Seq<char>> {
    match text::cut_at_first(s, ':') {
        None => seq![s],
        Some((a, rest)) => match text::cut_at_first(rest, ':') {
            None => seq![a, rest],
            Some((b, c)) => seq![a, b, c],
        },
    }
}

/// A text cut at its first two colons.
fn cut_at_colons(s: &str) -> (r: Vec<String>)
    ensures
        text::texts(r@) == colon_parts(s@),
        1 <= r@.len() <= 3,
{
    let mut out: Vec<String> = Vec::new();
    match split_once(s, ':') {
        None => {
            out.push(s.to_owned());
        },
        Some((a, rest)) => {
            out.push(a);
            match split_once(rest.as_str(), ':') {
                None => {
                    out.push(rest);
                },
                Some((b, c)) => {
                    out.push(b);
                    out.push(c);
                },
            }
        },
    }
    assert(text::texts(out@) =~= colon_parts(s@));
    out
}

/// `m` with what `project:write` or `project:write:read` grants. Anything else
/// grants nothing; of two grants of one token the later holds.
pub open spec fn with_token_entry(m: Map<Seq<char>, Grant>, entry: Seq<char>) -> Map<
    Seq<char>,
    Grant,
> {
    let p = colon_parts(entry);
    if p.len() < 2 {
        m
    } else {
        let w = m.insert(p[1], Grant { project: p[0], access: AuthAccess::Write });
        if p.len() == 3 {
            w.insert(p[2], Grant { project: p[0], access: AuthAccess::Read })
        } else {
            w
        }
    }
}

/// What the entries grant, one after the other.
pub open spec fn token_grants(entries: Seq<Seq<char>>) -> Map<Seq<char>, Grant>
    decreases entries.len(),
{
    if entries.len() == 0 {
        Map::empty()
    } else {
        with_token_entry(token_grants(entries.drop_last()), entries.last())
    }
}

/// `m` with what `project:user:password` grants. Anything else grants nothing.
pub open spec fn with_basic_entry(
    m: Map<(Seq<char>, Seq<char>), Grant>,
    entry: Seq<char>,
) -> Map<(Seq<char>, Seq<char>), Grant> {
    let p = colon_parts(entry);
    if p.len() != 3 {
        m
    } else {
        m.insert((p[1], p[2]), Grant { project: p[0], access: AuthAccess::Write })
    }
}

/// What the entries grant, one after the other.
pub open spec fn basic_grants(entries: Seq<Seq<char>>) -> Map<(Seq<char>, Seq<char>), Grant>
    decreases entries.len(),
{
    if entries.len() == 0 {
        Map::empty()
    } else {
        with_basic_entry(basic_grants(entries.drop_last()), entries.last())
    }
}

/// The entries of an optional comma separated list.
pub open spec fn entries_of(raw: Option<Seq<char>>) -> Seq<Seq<char>> {
    match raw {
        Some(s) => text::items_of(s),
        None => Seq::empty(),
    }
}

/// The tokens of a configuration: those of the projects, or, where no project
/// has one, the general ones, for the default project.
pub open spec fn configured_tokens(
    default_project: Seq<char>,
    token: Seq<char>,
    read_token: Option<Seq<char>>,
    raw: Option<Seq<char>>,
) -> Map<Seq<char>, Grant> {
    let m = token_grants(entries_of(raw));
    if m == Map::<Seq<char>, Grant>::empty() {
        let w = m.insert(token, Grant { project: default_project, access: AuthAccess::Write });
        match read_token {
            Some(t) => w.insert(
                t,
                Grant { project: default_project, access: AuthAccess::Read },
            ),
            None => w,
        }
    } else {
        m
    }
}

/// The credentials of a configuration: those of the projects, or, where no
/// project has one, the general pair of keys, for the default project.
pub open spec fn configured_basics(
    default_project: Seq<char>,
    public_key: Option<Seq<char>>,
    secret_key: Option<Seq<char>>,
    raw: Option<Seq<char>>,
) -> Map<(Seq<char>, Seq<char>), Grant> {
    let m = basic_grants(entries_of(raw));
    if m == Map::<(Seq<char>, Seq<char>), Grant>::empty() {
        match (public_key, secret_key) {
            (Some(p), Some(s)) => m.insert(
                (p, s),
                Grant { project: default_project, access: AuthAccess::Write },
            ),
            _ => m,
        }
    } else {
        m
    }
}

/// A token and what it grants.
#[derive(Debug)]
struct TokenGrant {
    token: String,
    context: AuthContext,
}

/// A user with a password and what they grant.
#[derive(Debug)]
struct BasicGrant {
    username: String,
    password: String,
    context: AuthContext,
}

/// What a list of tokens grants, the later ones first.
spec fn token_map(s: Seq<TokenGrant>) -> Map<Seq<char>, Grant>
    decreases s.len(),
{
    if s.len() == 0 {
        Map::empty()
    } else {
        token_map(s.drop_last()).insert(s.last().token@, s.last().context@)
    }
}

/// What a list of credentials grants, the later ones first.
spec fn basic_map(s: Seq<BasicGrant>) -> Map<(Seq<char>, Seq<char>), Grant>
    decreases s.len(),
{
    if s.len() == 0 {
        Map::empty()
    } else {
        basic_map(s.drop_last()).insert(
            (s.last().username@, s.last().password@),
            s.last().context@,
        )
    }
}

proof fn lemma_token_map_push(s: Seq<TokenGrant>, g: TokenGrant)
    ensures
        token_map(s.push(g)) == token_map(s).insert(g.token@, g.context@),
        token_map(s.push(g)) != Map::<Seq<char>, Grant>::empty(),
{
    assert(s.push(g).drop_last() == s);
    assert(token_map(s.push(g)).contains_key(g.token@));
}

proof fn lemma_basic_map_push(s: Seq<BasicGrant>, g: BasicGrant)
    ensures
        basic_map(s.push(g)) == basic_map(s).insert((g.username@, g.password@), g.context@),
        basic_map(s.push(g)) != Map::<(Seq<char>, Seq<char>), Grant>::empty(),
{
    assert(s.push(g).drop_last() == s);
    assert(basic_map(s.push(g)).contains_key((g.username@, g.password@)));
}

proof fn lemma_token_map_empty(s: Seq<TokenGrant>)
    ensures
        (token_map(s) == Map::<Seq<char>, Grant>::empty()) == (s.len() == 0),
{
    if s.len() > 0 {
        lemma_token_map_push(s.drop_last(), s.last());
        assert(s.drop_last().push(s.last()) == s);
    }
}

proof fn lemma_basic_map_empty(s: Seq<BasicGrant>)
    ensures
        (basic_map(s) == Map::<(Seq<char>, Seq<char>), Grant>::empty()) == (s.len() == 0),
{
    if s.len() > 0 {
        lemma_basic_map_push(s.drop_last(), s.last());
        assert(s.drop_last().push(s.last()) == s);
    }
}

/// The tokens and credentials that are known.
#[derive(Debug)]
pub struct AuthRegistry {
    default_project_id: String,
    bearer_tokens: Vec<TokenGrant>,
    basic_credentials: Vec<BasicGrant>,
}

impl AuthRegistry {
    /// What each token grants.
    pub closed spec fn tokens(&self) -> Map<Seq<char>, Grant> {
        token_map(self.bearer_tokens@)
    }

    /// What each user with a password is granted.
    pub closed spec fn basics(&self) -> Map<(Seq<char>, Seq<char>), Grant> {
        basic_map(self.basic_credentials@)
    }

    /// The project of whoever names none.
    pub closed spec fn default_project(&self) -> Seq<char> {
        self.default_project_id@
    }

    /// The project of whoever names none.
    pub fn default_project_id(&self) -> (r: &str)
        ensures
            r@ == self.default_project(),
    {
        self.default_project_id.as_str()
    }

    /// Whether any user with a password is known.
    pub fn has_basic_auth_configured(&self) -> (r: bool)
        ensures
            r == (self.basics() != Map::<(Seq<char>, Seq<char>), Grant>::empty()),
    {
        proof {
            lemma_basic_map_empty(self.basic_credentials@);
        }
        self.basic_credentials.len() > 0
    }

    /// The registry of a configuration.
    pub fn from_config(
        default_project_id: String,
        api_bearer_token: String,
        api_read_bearer_token: Option<String>,
        langfuse_public_key: Option<String>,
        langfuse_secret_key: Option<String>,
        project_tokens_raw: Option<&str>,
        project_basic_raw: Option<&str>,
    ) -> (r: AuthRegistry)
        ensures
            r.default_project() == default_project_id@,
            r.tokens() == configured_tokens(
                default_project_id@,
                api_bearer_token@,
                text::opt_text(api_read_bearer_token),
                text::opt_str(project_tokens_raw),
            ),
            r.basics() == configured_basics(
                default_project_id@,
                text::opt_text(langfuse_public_key),
                text::opt_text(langfuse_secret_key),
                text::opt_str(project_basic_raw),
            ),
    {
        let mut bearer_tokens: Vec<TokenGrant> = Vec::new();
        let mut basic_credentials: Vec<BasicGrant> = Vec::new();

        if let Some(raw) = project_tokens_raw {
            bearer_tokens = read_token_entries(&list_items(raw));
        }
        proof {
            lemma_token_map_empty(bearer_tokens@);
        }
        assert(token_map(bearer_tokens@) == token_grants(
            entries_of(text::opt_str(project_tokens_raw)),
        ));
        if bearer_tokens.len() == 0 {
            let ghost before = bearer_tokens@;
            bearer_tokens.push(
                TokenGrant {
                    token: api_bearer_token,
                    context: AuthContext {
                        project_id: default_project_id.clone(),
                        access: AuthAccess::Write,
                    },
                },
            );
            proof {
                lemma_token_map_push(before, bearer_tokens@.last());
                assert(before.push(bearer_tokens@.last()) == bearer_tokens@);
            }
            if let Some(read_token) = api_read_bearer_token {
                let ghost before = bearer_tokens@;
                bearer_tokens.push(
                    TokenGrant {
                        token: read_token,
                        context: AuthContext {
                            project_id: default_project_id.clone(),
                            access: AuthAccess::Read,
                        },
                    },
                );
                proof {
                    lemma_token_map_push(before, bearer_tokens@.last());
                    assert(before.push(bearer_tokens@.last()) == bearer_tokens@);
                }
            }
        }
        if let Some(raw) = project_basic_raw {
            basic_credentials = read_basic_entries(&list_items(raw));
        }
        proof {
            lemma_basic_map_empty(basic_credentials@);
        }
        assert(basic_map(basic_credentials@) == basic_grants(
            entries_of(text::opt_str(project_basic_raw)),
        ));
        if basic_credentials.len() == 0 {
            if let (Some(public), Some(secret)) = (langfuse_public_key, langfuse_secret_key) {
                let ghost before = basic_credentials@;
                basic_credentials.push(
                    BasicGrant {
                        username: public,
                        password: secret,
                        context: AuthContext {
                            project_id: default_project_id.clone(),
                            access: AuthAccess::Write,
                        },
                    },
                );
                proof {
                    lemma_basic_map_push(before, basic_credentials@.last());
                    assert(before.push(basic_credentials@.last()) == basic_credentials@);
                }
            }
        }
        AuthRegistry { default_project_id, bearer_tokens, basic_credentials }
    }

    /// What a token grants, if it is known.
    pub fn resolve_bearer(&self, token: &str) -> (r: Option<AuthContext>)
        ensures
            match r {
                Some(c) => self.tokens().contains_key(token@) && self.tokens()[token@] == c@,
                None => !self.tokens().contains_key(token@),
            },
    {
        let v = &self.bearer_tokens;
        let mut i: usize = v.len();
        assert(v@.take(i as int) == v@);
        while i > 0
            invariant
                0 <= i <= v@.len(),
                v == &self.bearer_tokens,
                token_map(v@).contains_key(token@) == token_map(v@.take(i as int)).contains_key(
                    token@,
                ),
                token_map(v@)[token@] == token_map(v@.take(i as int))[token@],
            decreases i,
        {
            assert(v@.take(i as int).drop_last() == v@.take(i - 1));
            assert(v@.take(i as int).last() == v@[i - 1]);
            i -= 1;
            if same(v[i].token.as_str(), token) {
                return Some(v[i].context.clone());
            }
        }
        None
    }

    /// What a user with a password is granted, if they are known.
    pub fn resolve_basic(&self, username: &str, password: &str) -> (r: Option<AuthContext>)
        ensures
            match r {
                Some(c) => self.basics().contains_key((username@, password@))
                    && self.basics()[(username@, password@)] == c@,
                None => !self.basics().contains_key((username@, password@)),
            },
    {
        let v = &self.basic_credentials;
        let ghost key = (username@, password@);
        let mut i: usize = v.len();
        assert(v@.take(i as int) == v@);
        while i > 0
            invariant
                0 <= i <= v@.len(),
                v == &self.basic_credentials,
                key == (username@, password@),
                basic_map(v@).contains_key(key) == basic_map(v@.take(i as int)).contains_key(key),
                basic_map(v@)[key] == basic_map(v@.take(i as int))[key],
            decreases i,
        {
            assert(v@.take(i as int).drop_last() == v@.take(i - 1));
            assert(v@.take(i as int).last() == v@[i - 1]);
            i -= 1;
            if same(v[i].username.as_str(), username) && same(v[i].password.as_str(), password) {
                return Some(v[i].context.clone());
            }
        }
        None
    }
}

/// The tokens that the entries grant.
fn read_token_entries(entries: &Vec<String>) -> (r: Vec<TokenGrant>)
    ensures
        token_map(r@) == token_grants(text::texts(entries@)),
{
    let mut out: Vec<TokenGrant> = Vec::new();
    let mut i: usize = 0;
    let ghost all = text::texts(entries@);
    assert(all.take(0) == Seq::<Seq<char>>::empty());
    while i < entries.len()
        invariant
            0 <= i <= entries@.len(),
            all == text::texts(entries@),
            token_map(out@) == token_grants(all.take(i as int)),
        decreases entries.len() - i,
    {
        assert(all.take(i + 1).drop_last() == all.take(i as int));
        assert(all.take(i + 1).last() == entries@[i as int]@);
        let parts = cut_at_colons(entries[i].as_str());
        let ghost p = colon_parts(entries@[i as int]@);
        if parts.len() >= 2 {
            assert(p[0] == parts@[0]@ && p[1] == parts@[1]@);
            let ghost before = out@;
            let grant = TokenGrant {
                token: parts[1].clone(),
                context: AuthContext { project_id: parts[0].clone(), access: AuthAccess::Write },
            };
            out.push(grant);
            proof {
                lemma_token_map_push(before, grant);
            }
            if parts.len() == 3 {
                assert(p[2] == parts@[2]@);
                let ghost before = out@;
                let grant = TokenGrant {
                    token: parts[2].clone(),
                    context: AuthContext { project_id: parts[0].clone(), access: AuthAccess::Read },
                };
                out.push(grant);
                proof {
                    lemma_token_map_push(before, grant);
                }
            }
        }
        i += 1;
    }
    assert(all.take(all.len() as int) == all);
    out
}

/// The credentials that the entries grant.
fn read_basic_entries(entries: &Vec<String>) -> (r: Vec<BasicGrant>)
    ensures
        basic_map(r@) == basic_grants(text::texts(entries@)),
{
    let mut out: Vec<BasicGrant> = Vec::new();
    let mut i: usize = 0;
    let ghost all = text::texts(entries@);
    assert(all.take(0) == Seq::<Seq<char>>::empty());
    while i < entries.len()
        invariant
            0 <= i <= entries@.len(),
            all == text::texts(entries@),
            basic_map(out@) == basic_grants(all.take(i as int)),
        decreases entries.len() - i,
    {
        assert(all.take(i + 1).drop_last() == all.take(i as int));
        assert(all.take(i + 1).last() == entries@[i as int]@);
        let parts = cut_at_colons(entries[i].as_str());
        let ghost p = colon_parts(entries@[i as int]@);
        if parts.len() == 3 {
            assert(p[0] == parts@[0]@ && p[1] == parts@[1]@ && p[2] == parts@[2]@);
            let ghost before = out@;
            let grant = BasicGrant {
                username: parts[1].clone(),
                password: parts[2].clone(),
                context: AuthContext { project_id: parts[0].clone(), access: AuthAccess::Write },
            };
            out.push(grant);
            proof {
                lemma_basic_map_push(before, grant);
            }
        }
        i += 1;
    }
    assert(all.take(all.len() as int) == all);
    out
}

/// The methods of HTTP that the routes tell apart.
#[derive(Debug, Clone, Copy, PartialEq, Eq, Structural)]
pub enum Method {
    Get,
    Post,
    Put,
    Patch,
    Options,
    Other,
}

/// Whether a request writes.
pub open spec fn writes(method: Method, path: Seq<char>) -> bool {
    match method {
        Method::Post => {
            ||| path == "/v1/l/batch"@
            ||| path == "/v1/metrics/batch"@
            ||| path == "/api/public/otel/v1/traces"@
            ||| path == "/api/public/otel/v1/metrics"@
            ||| path == "/api/public/media"@
        },
        Method::Put => text::finishes_with(path, "/upload"@),
        Method::Patch => text::begins_with(path, "/api/public/media/"@),
        _ => false,
    }
}

/// Whether a request writes.
pub fn is_write_route(method: &Method, path: &str) -> (r: bool)
    ensures
        r == writes(*method, path@),
{
    match *method {
        Method::Post => same(path, "/v1/l/batch") || same(path, "/v1/metrics/batch") || same(
            path,
            "/api/public/otel/v1/traces",
        ) || same(path, "/api/public/otel/v1/metrics") || same(path, "/api/public/media"),
        Method::Put => ends_with(path, "/upload"),
        Method::Patch => starts_with(path, "/api/public/media/"),
        _ => false,
    }
}

/// The context of a request that has been let through.
#[derive(Debug)]
pub struct Authenticated(pub AuthContext);

impl Authenticated {
    /// The project of the request.
    pub fn project_id(&self) -> (r: &str)
        ensures
            r@ == self.0@.project,
    {
        self.0.project_id.as_str()
    }

    /// An error unless the request may write.
    pub fn require_write(&self) -> (r: Result<(), ApiError>)
        ensures
            match self.0@.access {
                AuthAccess::Write => r is Ok,
                AuthAccess::Read => r matches Err(e) && e@ == error::ErrorModel::Forbidden(
                    "read-only token cannot write"@,
                ),
            },
    {
        if self.0.access == AuthAccess::Read {
            return Err(ApiError::Forbidden("read-only token cannot write".to_owned()));
        }
        Ok(())
    }
}

/// Once a project has a token of its own, the general tokens grant nothing that
/// the projects' tokens do not.
pub proof fn lemma_project_tokens_replace_general(
    default_project: Seq<char>,
    token: Seq<char>,
    read_token: Option<Seq<char>>,
    raw: Seq<char>,
)
    requires
        token_grants(text::items_of(raw)) != Map::<Seq<char>, Grant>::empty(),
    ensures
        configured_tokens(default_project, token, read_token, Some(raw)) == token_grants(
            text::items_of(raw),
        ),
{
}

/// Every token of a project list grants access to a project that an entry of
/// the list names in front of that token, and writing only where the token
/// stands in the second place.
pub proof fn lemma_token_belongs_to_its_entry(entries: Seq<Seq<char>>, token: Seq<char>)
    requires
        token_grants(entries).contains_key(token),
    ensures
        exists|i: int|
            #![trigger entries[i]]
            0 <= i < entries.len() && {
                let p = colon_parts(entries[i]);
                &&& p.len() >= 2
                &&& token_grants(entries)[token].project == p[0]
                &&& token_grants(entries)[token].access == AuthAccess::Write ==> p[1] == token
                &&& token_grants(entries)[token].access == AuthAccess::Read ==> p.len() == 3
                    && p[2] == token
            },
    decreases entries.len(),
{
    let head = entries.drop_last();
    let p = colon_parts(entries.last());
    if p.len() >= 2 && (p[1] == token || (p.len() == 3 && p[2] == token)) {
        assert(entries[entries.len() - 1] == entries.last());
    } else {
        lemma_token_belongs_to_its_entry(head, token);
        let i = choose|i: int|
            #![trigger head[i]]
            0 <= i < head.len() && {
                let p = colon_parts(head[i]);
                &&& p.len() >= 2
                &&& token_grants(head)[token].project == p[0]
                &&& token_grants(head)[token].access == AuthAccess::Write ==> p[1] == token
                &&& token_grants(head)[token].access == AuthAccess::Read ==> p.len() == 3 && p[2]
                    == token
            };
        assert(entries[i] == head[i]);
    }
}

/// Without tokens of projects the general token writes to the default project
/// and the reading token, another one, reads from it.
pub proof fn lemma_general_tokens_serve_default_project(
    default_project: Seq<char>,
    token: Seq<char>,
    read_token: Seq<char>,
)
    requires
        token != read_token,
    ensures
        configured_tokens(default_project, token, Some(read_token), None) == map![
            token => (Grant { project: default_project, access: AuthAccess::Write }),
            read_token => (Grant { project: default_project, access: AuthAccess::Read }),
        ],
{
}

}
