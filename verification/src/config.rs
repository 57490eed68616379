//! The settings of the server, and how the environment gives them.

use vstd::prelude::*;

use crate::label_governance::{parse_label_key_set, KeySet, LabelGovernanceConfig, LabelOverflowPolicy};
use crate::label_governance;
use crate::media;
use crate::media::join_path;
use crate::retention::RetentionConfig;
use crate::text::{chars_of, same, to_ascii_lowercase};
use crate::text;

verus! {

/// The settings of the server.
#[derive(Debug)]
pub struct ServerConfig {
    pub database_url: String,
    pub api_bearer_token: String,
    pub bind_addr: String,
    pub default_project_id: String,
    pub langfuse_public_key: Option<String>,
    pub langfuse_secret_key: Option<String>,
    pub rate_limit_qps: u32,
    pub rate_limit_burst: u32,
    /// When true, allows unauthenticated access to `GET /api/public/projects` and
    /// `POST /api/public/otel/v1/traces` if no basic credentials are configured.
    /// Must stay false in production (default).
    pub allow_unauthenticated_compat: bool,
    /// Maximum HTTP request body size in bytes.
    pub max_request_body_bytes: usize,
    /// Directory of the media files.
    pub media_dir: String,
    /// Public base URL for media links.
    pub public_base_url: Option<String>,
    /// Maximum allowed media upload size in bytes.
    pub media_max_content_length: usize,
    pub label_governance: LabelGovernanceConfig,
    pub metrics_query_max_series: usize,
    pub metrics_query_max_points_per_series: usize,
    pub api_read_bearer_token: Option<String>,
    pub project_tokens: Option<String>,
    pub project_basic_auth: Option<String>,
    pub retention: RetentionConfig,
}

/// The variables of the environment that the server reads, each as it is set.
#[derive(Debug, Default)]
pub struct Environment {
    pub mock_storage: Option<String>,
    pub json_dir: Option<String>,
    pub database_url: Option<String>,
    pub api_bearer_token: Option<String>,
    pub bind_addr: Option<String>,
    pub default_project_id: Option<String>,
    pub xtrace_public_key: Option<String>,
    pub langfuse_public_key: Option<String>,
    pub xtrace_secret_key: Option<String>,
    pub langfuse_secret_key: Option<String>,
    pub rate_limit_qps: Option<String>,
    pub rate_limit_burst: Option<String>,
    pub allow_unauthenticated_compat: Option<String>,
    pub max_request_body_bytes: Option<String>,
    pub media_dir: Option<String>,
    pub public_base_url: Option<String>,
    pub media_max_content_length: Option<String>,
    pub metrics_max_labels: Option<String>,
    pub metrics_max_label_value_len: Option<String>,
    pub metrics_label_allowlist: Option<String>,
    pub metrics_label_denylist: Option<String>,
    pub metrics_label_overflow_policy: Option<String>,
    pub metrics_query_max_series: Option<String>,
    pub metrics_query_max_points: Option<String>,
    pub api_read_bearer_token: Option<String>,
    pub project_tokens: Option<String>,
    pub project_basic_auth: Option<String>,
    pub metrics_retention_days: Option<String>,
    pub traces_retention_days: Option<String>,
    pub metrics_downsample_after_days: Option<String>,
    pub retention_interval_hours: Option<String>,
    pub memory_max_metrics: Option<String>,
    pub memory_max_traces: Option<String>,
}

/// Why the server cannot start.
#[derive(Debug, Clone, Copy, PartialEq, Eq, Structural)]
pub enum ConfigError {
    MissingDatabaseUrl,
    MissingBearerToken,
}

impl ConfigError {
    /// The words for it.
    pub fn message(&self) -> (r: &'static str)
        ensures
            r@ == match *self {
                ConfigError::MissingDatabaseUrl => "missing env DATABASE_URL"@,
                ConfigError::MissingBearerToken => "missing env API_BEARER_TOKEN"@,
            },
    {
        match self {
            ConfigError::MissingDatabaseUrl => "missing env DATABASE_URL",
            ConfigError::MissingBearerToken => "missing env API_BEARER_TOKEN",
        }
    }
}

/// Whether a character is a decimal digit.
pub open spec fn is_digit(c: char) -> bool {
    '0' <= c <= '9'
}

/// The number that decimal digits stand for.
pub open spec fn digits_value(s: Seq<char>) -> nat
    decreases s.len(),
{
    if s.len() == 0 {
        0
    } else {
        digits_value(s.drop_last()) * 10 + (s.last() as nat - '0' as nat) as nat
    }
}

/// The digits of a number that may have a plus sign in front.
pub open spec fn unsigned_digits(s: Seq<char>) -> Seq<char> {
    if s.len() > 0 && s[0] == '+' {
        s.skip(1)
    } else {
        s
    }
}

/// The number that a text is, if it is one that is no greater than `max`.
pub open spec fn number_in(s: Seq<char>, max: nat) -> Option<nat> {
    let d = unsigned_digits(s);
    if d.len() > 0 && (forall|i: int| 0 <= i < d.len() ==> is_digit(#[trigger] d[i]))
        && digits_value(d) <= max {
        Some(digits_value(d))
    } else {
        None
    }
}

/// More digits stand for no smaller a number.
proof fn lemma_more_digits(s: Seq<char>, n: int)
    requires
        0 <= n <= s.len(),
    ensures
        digits_value(s.take(n)) <= digits_value(s),
    decreases s.len(),
{
    if n == s.len() {
        assert(s.take(n) =~= s);
    } else {
        lemma_more_digits(s.drop_last(), n);
        assert(s.drop_last().take(n) =~= s.take(n));
    }
}

/// The number that a text is, if it is one that is no greater than `max`.
pub fn parse_number(s: &str, max: u64) -> (r: Option<u64>)
    ensures
        match number_in(s@, max as nat) {
            Some(n) => r matches Some(v) && v == n,
            None => r is None,
        },
{
    let v = chars_of(s);
    let ghost d = unsigned_digits(s@);
    let from: usize = if v.len() > 0 && v[0] == '+' {
        1
    } else {
        0
    };
    if from >= v.len() {
        return None;
    }
    let mut i: usize = from;
    let mut value: u64 = 0;
    assert(d.take(0) =~= Seq::<char>::empty());
    while i < v.len()
        invariant
            from <= i <= v@.len(),
            v@ == s@,
            d == unsigned_digits(s@),
            d == s@.skip(from as int),
            value == digits_value(d.take(i - from)),
            value <= max,
            forall|j: int| 0 <= j < i - from ==> is_digit(#[trigger] d[j]),
        decreases v.len() - i,
    {
        let c = v[i];
        assert(d[i - from] == c);
        if c < '0' || c > '9' {
            assert(!is_digit(d[i - from]));
            return None;
        }
        let digit: u64 = (c as u32 - '0' as u32) as u64;
        let ghost more = d.take(i - from + 1);
        proof {
            assert(more.drop_last() =~= d.take(i - from));
            assert(more.last() == c);
            assert(digits_value(more) == value * 10 + digit);
            lemma_more_digits(d, i - from + 1);
        }
        if digit > max || value > (max - digit) / 10 {
            return None;
        }
        value = value * 10 + digit;
        i += 1;
    }
    assert(d.take(d.len() as int) =~= d);
    Some(value)
}

/// The number that a variable is set to, or `default` where it is not set to a
/// number that is no greater than `max`.
pub open spec fn number_or(o: Option<String>, max: nat, default: nat) -> nat {
    match text::opt_text(o) {
        Some(s) => match number_in(s, max) {
            Some(n) => n,
            None => default,
        },
        None => default,
    }
}

/// The number that a variable is set to, or `default`.
fn u64_or(o: &Option<String>, max: u64, default: u64) -> (r: u64)
    requires
        default <= max,
    ensures
        r == number_or(*o, max as nat, default as nat),
        r <= max,
{
    match o {
        Some(s) => match parse_number(s.as_str(), max) {
            Some(n) => n,
            None => default,
        },
        None => default,
    }
}

/// The number that a variable is set to, or `default`.
fn u32_or(o: &Option<String>, default: u32) -> (r: u32)
    ensures
        r == number_or(*o, u32::MAX as nat, default as nat),
{
    u64_or(o, u32::MAX as u64, default as u64) as u32
}

/// The number that a variable is set to, or `default`.
fn usize_or(o: &Option<String>, default: usize) -> (r: usize)
    ensures
        r == number_or(*o, usize::MAX as nat, default as nat),
{
    u64_or(o, usize::MAX as u64, default as u64) as usize
}

/// The text that a variable is set to, or `default`.
pub open spec fn text_or(o: Option<String>, default: Seq<char>) -> Seq<char> {
    match o {
        Some(s) => s@,
        None => default,
    }
}

/// The text that a variable is set to, or `default`.
fn string_or(o: Option<String>, default: &str) -> (r: String)
    ensures
        r@ == text_or(o, default@),
{
    match o {
        Some(s) => s,
        None => default.to_owned(),
    }
}

/// The first of two variables that is set.
pub open spec fn first_set(a: Option<String>, b: Option<String>) -> Option<Seq<char>> {
    if a is Some {
        text::opt_text(a)
    } else {
        text::opt_text(b)
    }
}

/// The first of two variables that is set.
fn first_of(a: Option<String>, b: Option<String>) -> (r: Option<String>)
    ensures
        text::opt_text(r) == first_set(a, b),
{
    if a.is_some() {
        a
    } else {
        b
    }
}

/// Whether a variable is set to `word`.
pub open spec fn set_to(o: Option<String>, word: Seq<char>) -> bool {
    text::opt_text(o) == Some(word)
}

/// Whether the server keeps its data in memory and in files: where the
/// environment asks for it or names a directory for the files.
pub open spec fn in_memory(env: Environment) -> bool {
    set_to(env.mock_storage, "true"@) || env.json_dir is Some
}

/// The directory of the files of a server that keeps its data in memory, unless
/// the environment names one.
pub const DATA_DIR: &'static str = "./.xtrace_data";

/// Where the server keeps its data.
#[derive(Debug)]
pub enum Storage {
    /// In memory, and in files in a directory.
    Memory(String),
    /// In the database at an address.
    Postgres(String),
}

/// Whether the server keeps its data in memory and in files.
fn is_mock(env: &Environment) -> (r: bool)
    ensures
        r == in_memory(*env),
{
    let asked = match &env.mock_storage {
        Some(s) => same(s.as_str(), "true"),
        None => false,
    };
    asked || env.json_dir.is_some()
}

/// Where the server keeps its data, given the address of the database.
pub fn storage_of(env: &Environment, database_url: &str) -> (r: Storage)
    ensures
        match r {
            Storage::Memory(dir) => in_memory(*env) && dir@ == text_or(env.json_dir, DATA_DIR@),
            Storage::Postgres(url) => !in_memory(*env) && url@ == database_url@,
        },
{
    if is_mock(env) {
        match &env.json_dir {
            Some(dir) => Storage::Memory(dir.clone()),
            None => Storage::Memory(DATA_DIR.to_owned()),
        }
    } else {
        Storage::Postgres(database_url.to_owned())
    }
}

/// The directory of the media files.
pub open spec fn media_dir_of(env: Environment) -> Seq<char> {
    match env.media_dir {
        Some(dir) => dir@,
        None => if in_memory(env) {
            media::joined_path(text_or(env.json_dir, DATA_DIR@), "media"@)
        } else {
            ".xtrace_media"@
        },
    }
}

/// The directory of the media files.
fn media_dir(env: &Environment) -> (r: String)
    ensures
        r@ == media_dir_of(*env),
{
    match &env.media_dir {
        Some(dir) => dir.clone(),
        None => if is_mock(env) {
            match &env.json_dir {
                Some(dir) => join_path(dir.as_str(), "media"),
                None => join_path(DATA_DIR, "media"),
            }
        } else {
            ".xtrace_media".to_owned()
        },
    }
}

/// Whether a variable is set to `1`, or to `true` in whatever case.
pub open spec fn switched_on(o: Option<String>) -> bool {
    match text::opt_text(o) {
        Some(s) => s == "1"@ || text::lowered(s) == "true"@,
        None => false,
    }
}

/// Whether a variable is set to `1`, or to `true` in whatever case.
fn is_on(o: &Option<String>) -> (r: bool)
    ensures
        r == switched_on(*o),
{
    match o {
        Some(s) => same(s.as_str(), "1") || same(to_ascii_lowercase(s.as_str()).as_str(), "true"),
        None => false,
    }
}

/// The keys that a variable lists, if it lists any.
pub open spec fn keys_listed(o: Option<String>) -> Option<Set<Seq<char>>> {
    match text::opt_text(o) {
        Some(s) => if text::items_of(text::trimmed(s)).len() == 0 {
            None
        } else {
            Some(text::items_of(text::trimmed(s)).to_set())
        },
        None => None,
    }
}

/// The keys that a variable lists, if it lists any.
fn read_keys(o: &Option<String>) -> (r: Option<KeySet>)
    ensures
        match r {
            Some(k) => keys_listed(*o) == Some(k@),
            None => keys_listed(*o) is None,
        },
{
    match o {
        Some(s) => parse_label_key_set(Some(s.as_str())),
        None => parse_label_key_set(None),
    }
}

/// The rules on labels that the environment gives.
pub open spec fn label_rules(env: Environment) -> label_governance::Rules {
    label_governance::Rules {
        max_labels: number_or(env.metrics_max_labels, usize::MAX as nat, 64),
        max_value_bytes: number_or(env.metrics_max_label_value_len, usize::MAX as nat, 256),
        allow: keys_listed(env.metrics_label_allowlist),
        deny: match keys_listed(env.metrics_label_denylist) {
            Some(k) => k,
            None => Set::empty(),
        },
        policy: match text::opt_text(env.metrics_label_overflow_policy) {
            Some(s) => match label_governance::policy_named(text::lowered(text::trimmed(s))) {
                Some(p) => p,
                None => LabelOverflowPolicy::DropLabels,
            },
            None => LabelOverflowPolicy::DropLabels,
        },
    }
}

/// The rules on labels that the environment gives.
fn read_label_rules(env: &Environment) -> (r: LabelGovernanceConfig)
    ensures
        r@ == label_rules(*env),
{
    let deny_keys = match read_keys(&env.metrics_label_denylist) {
        Some(k) => k,
        None => KeySet::new(),
    };
    let overflow_policy = match &env.metrics_label_overflow_policy {
        Some(s) => match LabelOverflowPolicy::parse(s.as_str()) {
            Some(p) => p,
            None => LabelOverflowPolicy::DropLabels,
        },
        None => LabelOverflowPolicy::DropLabels,
    };
    LabelGovernanceConfig {
        max_labels_per_point: usize_or(&env.metrics_max_labels, 64),
        max_label_value_len: usize_or(&env.metrics_max_label_value_len, 256),
        allow_keys: read_keys(&env.metrics_label_allowlist),
        deny_keys,
        overflow_policy,
    }
}

/// Whether `c` holds the limits on stored data that the environment gives.
pub open spec fn is_retention_of(env: Environment, c: RetentionConfig) -> bool {
    &&& c.metrics_retention_days == number_or(env.metrics_retention_days, u32::MAX as nat, 0)
    &&& c.traces_retention_days == number_or(env.traces_retention_days, u32::MAX as nat, 0)
    &&& c.metrics_downsample_after_days == number_or(
        env.metrics_downsample_after_days,
        u32::MAX as nat,
        0,
    )
    &&& c.interval_hours == number_or(env.retention_interval_hours, u64::MAX as nat, 24)
    &&& c.memory_max_metrics == number_or(env.memory_max_metrics, usize::MAX as nat, 0)
    &&& c.memory_max_traces == number_or(env.memory_max_traces, usize::MAX as nat, 0)
}

/// The limits on stored data that the environment gives.
fn read_retention(env: &Environment) -> (r: RetentionConfig)
    ensures
        is_retention_of(*env, r),
{
    RetentionConfig {
        metrics_retention_days: u32_or(&env.metrics_retention_days, 0),
        traces_retention_days: u32_or(&env.traces_retention_days, 0),
        metrics_downsample_after_days: u32_or(&env.metrics_downsample_after_days, 0),
        interval_hours: u64_or(&env.retention_interval_hours, u64::MAX, 24),
        memory_max_metrics: usize_or(&env.memory_max_metrics, 0),
        memory_max_traces: usize_or(&env.memory_max_traces, 0),
    }
}

/// The greatest request and the greatest media file, unless the environment says
/// otherwise, in bytes.
pub const MAX_BYTES: usize = 20_971_520;

/// Why the environment gives no settings, if it does not: a server that does not
/// keep its data in memory needs a database and a token.
pub open spec fn config_error(env: Environment) -> Option<ConfigError> {
    if in_memory(env) {
        None
    } else if env.database_url is None {
        Some(ConfigError::MissingDatabaseUrl)
    } else if env.api_bearer_token is None {
        Some(ConfigError::MissingBearerToken)
    } else {
        None
    }
}

/// Whether `c` holds the settings that the environment gives.
pub open spec fn is_config_of(env: Environment, c: ServerConfig) -> bool {
    &&& c.database_url@ == text_or(env.database_url, "postgres://dummy_mock_url"@)
    &&& c.api_bearer_token@ == text_or(env.api_bearer_token, "xtrace-default-token"@)
    &&& c.bind_addr@ == text_or(env.bind_addr, "127.0.0.1:8742"@)
    &&& c.default_project_id@ == text_or(env.default_project_id, "default"@)
    &&& text::opt_text(c.langfuse_public_key) == first_set(
        env.xtrace_public_key,
        env.langfuse_public_key,
    )
    &&& text::opt_text(c.langfuse_secret_key) == first_set(
        env.xtrace_secret_key,
        env.langfuse_secret_key,
    )
    &&& c.rate_limit_qps == number_or(env.rate_limit_qps, u32::MAX as nat, 20)
    &&& c.rate_limit_burst == number_or(env.rate_limit_burst, u32::MAX as nat, 40)
    &&& c.allow_unauthenticated_compat == switched_on(env.allow_unauthenticated_compat)
    &&& c.max_request_body_bytes == number_or(
        env.max_request_body_bytes,
        usize::MAX as nat,
        MAX_BYTES as nat,
    )
    &&& c.media_dir@ == media_dir_of(env)
    &&& text::opt_text(c.public_base_url) == text::opt_text(env.public_base_url)
    &&& c.media_max_content_length == number_or(
        env.media_max_content_length,
        usize::MAX as nat,
        MAX_BYTES as nat,
    )
    &&& c.label_governance@ == label_rules(env)
    &&& c.metrics_query_max_series == number_or(
        env.metrics_query_max_series,
        usize::MAX as nat,
        50,
    )
    &&& c.metrics_query_max_points_per_series == number_or(
        env.metrics_query_max_points,
        usize::MAX as nat,
        1000,
    )
    &&& text::opt_text(c.api_read_bearer_token) == text::opt_text(env.api_read_bearer_token)
    &&& text::opt_text(c.project_tokens) == text::opt_text(env.project_tokens)
    &&& text::opt_text(c.project_basic_auth) == text::opt_text(env.project_basic_auth)
    &&& is_retention_of(env, c.retention)
}

/// The settings that the environment gives.
pub fn read_config(env: Environment) -> (r: Result<ServerConfig, ConfigError>)
    ensures
        match config_error(env) {
            Some(e) => r == Err::<ServerConfig, ConfigError>(e),
            None => r matches Ok(c) && is_config_of(env, c),
        },
{
    if !is_mock(&env) {
        if env.database_url.is_none() {
            return Err(ConfigError::MissingDatabaseUrl);
        }
        if env.api_bearer_token.is_none() {
            return Err(ConfigError::MissingBearerToken);
        }
    }
    let media_dir = media_dir(&env);
    let label_governance = read_label_rules(&env);
    let retention = read_retention(&env);
    Ok(
        ServerConfig {
            rate_limit_qps: u32_or(&env.rate_limit_qps, 20),
            rate_limit_burst: u32_or(&env.rate_limit_burst, 40),
            allow_unauthenticated_compat: is_on(&env.allow_unauthenticated_compat),
            max_request_body_bytes: usize_or(&env.max_request_body_bytes, MAX_BYTES),
            media_dir,
            media_max_content_length: usize_or(&env.media_max_content_length, MAX_BYTES),
            label_governance,
            metrics_query_max_series: usize_or(&env.metrics_query_max_series, 50),
            metrics_query_max_points_per_series: usize_or(&env.metrics_query_max_points, 1000),
            retention,
            database_url: string_or(env.database_url, "postgres://dummy_mock_url"),
            api_bearer_token: string_or(env.api_bearer_token, "xtrace-default-token"),
            bind_addr: string_or(env.bind_addr, "127.0.0.1:8742"),
            default_project_id: string_or(env.default_project_id, "default"),
            langfuse_public_key: first_of(env.xtrace_public_key, env.langfuse_public_key),
            langfuse_secret_key: first_of(env.xtrace_secret_key, env.langfuse_secret_key),
            public_base_url: env.public_base_url,
            api_read_bearer_token: env.api_read_bearer_token,
            project_tokens: env.project_tokens,
            project_basic_auth: env.project_basic_auth,
        },
    )
}

}
