//! Laws of the settings: how numbers and switches are read, and what each
//! setting is where its variable is set and where it is not.

use vstd::arithmetic::power::pow;
use vstd::prelude::*;

use crate::config;
use crate::config::{ConfigError, Environment, ServerConfig};
use crate::label_governance::LabelOverflowPolicy;
use crate::media;
use crate::text;

verus! {

/// Digits count by their place: each stands for ten times what it would stand
/// for one place further right.
pub proof fn lemma_digits_by_place(a: Seq<char>, b: Seq<char>, c: char)
    requires
        '0' <= c <= '9',
    ensures
        config::digits_value(seq![c]) == c as int - 48,
        config::digits_value(a + b) == config::digits_value(a) * pow(10, b.len())
            + config::digits_value(b),
    decreases b.len(),
{
    assert(seq![c].drop_last() == Seq::<char>::empty());
    assert(config::digits_value(Seq::<char>::empty()) == 0);
    assert(seq![c].last() == c);
    if b.len() == 0 {
        assert(a + b == a);
        vstd::arithmetic::power::lemma_pow0(10);
        assert(config::digits_value(a) * 1 == config::digits_value(a));
    } else {
        lemma_digits_by_place(a, b.drop_last(), c);
        assert((a + b).drop_last() == a + b.drop_last());
        assert((a + b).last() == b.last());
        let n = (b.len() - 1) as nat;
        vstd::arithmetic::power::lemma_pow_adds(10, 1, n);
        vstd::arithmetic::power::lemma_pow1(10);
        let x = config::digits_value(a) as int;
        let y = config::digits_value(b.drop_last()) as int;
        let p = pow(10, n);
        assert((x * p + y) * 10 == x * (10 * p) + y * 10) by (nonlinear_arith);
    }
}

/// The digits of a number stand for it.
proof fn lemma_digits_of_decimal(n: nat)
    ensures
        config::digits_value(text::decimal(n)) == n,
        text::decimal(n).len() > 0,
        forall|i: int|
            0 <= i < text::decimal(n).len() ==> config::is_digit(#[trigger] text::decimal(n)[i]),
    decreases n,
{
    let s = text::decimal(n);
    assert(s.last() == text::digit(n % 10));
    assert(text::digit(n % 10) as int == 48 + n % 10);
    if n < 10 {
        assert(s.drop_last() == Seq::<char>::empty());
        assert(config::digits_value(s.drop_last()) == 0);
    } else {
        lemma_digits_of_decimal(n / 10);
        assert(s.drop_last() == text::decimal(n / 10));
        assert forall|i: int| 0 <= i < s.len() implies config::is_digit(#[trigger] s[i]) by {
            if i < s.len() - 1 {
                assert(s[i] == text::decimal(n / 10)[i]);
            }
        }
    }
}

/// A number that is written down is read back, with a plus sign in front of it
/// too, where it is no greater than what is allowed; a greater one is not read.
pub proof fn lemma_number_read_back(n: nat, max: nat)
    ensures
        n <= max ==> config::number_in(text::decimal(n), max) == Some(n),
        n <= max ==> config::number_in(seq!['+'] + text::decimal(n), max) == Some(n),
        n > max ==> config::number_in(text::decimal(n), max) is None,
{
    lemma_digits_of_decimal(n);
    let s = text::decimal(n);
    assert(config::is_digit(s[0]));
    assert(config::unsigned_digits(s) == s);
    let t = seq!['+'] + s;
    assert(t.skip(1) == s);
}

/// A text is read as a number only where it is digits, with at most one plus sign
/// in front: no other sign, no blank, no point, and not nothing.
pub proof fn lemma_number_is_digits(s: Seq<char>, max: nat)
    ensures
        config::number_in(s, max) matches Some(n) ==> {
            &&& n <= max
            &&& s.len() > 0
            &&& forall|i: int| 1 <= i < s.len() ==> '0' <= #[trigger] s[i] <= '9'
            &&& '0' <= s[0] <= '9' || (s[0] == '+' && s.len() > 1)
        },
{
    if config::number_in(s, max) is Some {
        let d = config::unsigned_digits(s);
        assert forall|i: int| 1 <= i < s.len() implies '0' <= #[trigger] s[i] <= '9' by {
            if s[0] == '+' {
                assert(config::is_digit(d[i - 1]));
            } else {
                assert(config::is_digit(d[i]));
            }
        }
        if s[0] != '+' {
            assert(config::is_digit(d[0]));
        }
    }
}

/// A setting that is a number is the one its variable is set to, or its default
/// where the variable is not set or not to a number that fits.
pub proof fn lemma_number_setting(o: Option<String>, max: nat, default: nat, n: nat)
    ensures
        o is None ==> config::number_or(o, max, default) == default,
        o matches Some(s) ==> (s@ == text::decimal(n) && n <= max ==> config::number_or(
            o,
            max,
            default,
        ) == n),
        o matches Some(s) ==> (s@ == text::decimal(n) && n > max ==> config::number_or(
            o,
            max,
            default,
        ) == default),
        o matches Some(s) ==> (s@.len() == 0 ==> config::number_or(o, max, default) == default),
{
    lemma_number_read_back(n, max);
}

/// The words that switch something on are `1` and `true`, in capitals or not.
pub proof fn lemma_switch(o: Option<String>)
    ensures
        o is None ==> !config::switched_on(o),
        o matches Some(s) ==> (s@ == "1"@ ==> config::switched_on(o)),
        o matches Some(s) ==> (s@ == "true"@ || s@ == "TRUE"@ || s@ == "True"@
            ==> config::switched_on(o)),
        o matches Some(s) ==> (config::switched_on(o) ==> s@ == "1"@ || s@.len() == 4),
{
    reveal_strlit("1");
    reveal_strlit("true");
    reveal_strlit("TRUE");
    reveal_strlit("True");
    match o {
        Some(s) => {
            if s@ == "true"@ || s@ == "TRUE"@ || s@ == "True"@ {
                assert(text::lowered(s@) =~= "true"@);
            }
        },
        None => {},
    }
}

/// A server keeps its data in memory if and only if the environment says `true`
/// to that, in these very letters, or names a directory for the files. Only one
/// that does not keep its data in memory can fail to start: for want of the
/// address of its database, or, where it has that, of a token.
pub proof fn lemma_start(env: Environment)
    ensures
        config::in_memory(env) <==> (env.mock_storage matches Some(s) && s@ == "true"@)
            || env.json_dir is Some,
        config::config_error(env) == Some(ConfigError::MissingDatabaseUrl)
            <==> !config::in_memory(env) && env.database_url is None,
        config::config_error(env) == Some(ConfigError::MissingBearerToken)
            <==> !config::in_memory(env) && env.database_url is Some && env.api_bearer_token
            is None,
        config::config_error(env) is None <==> config::in_memory(env) || (env.database_url is Some
            && env.api_bearer_token is Some),
{
}

/// The settings that are texts are what their variables are set to.
pub proof fn lemma_texts_set(env: Environment, c: ServerConfig)
    requires
        config::is_config_of(env, c),
    ensures
        env.database_url matches Some(s) ==> c.database_url@ == s@,
        env.api_bearer_token matches Some(s) ==> c.api_bearer_token@ == s@,
        env.bind_addr matches Some(s) ==> c.bind_addr@ == s@,
        env.default_project_id matches Some(s) ==> c.default_project_id@ == s@,
        env.media_dir matches Some(s) ==> c.media_dir@ == s@,
        env.public_base_url matches Some(s) ==> (c.public_base_url matches Some(t) && t@ == s@),
        env.api_read_bearer_token matches Some(s) ==> (c.api_read_bearer_token matches Some(t)
            && t@ == s@),
        env.project_tokens matches Some(s) ==> (c.project_tokens matches Some(t) && t@ == s@),
        env.project_basic_auth matches Some(s) ==> (c.project_basic_auth matches Some(t) && t@
            == s@),
        env.public_base_url is None ==> c.public_base_url is None,
        env.api_read_bearer_token is None ==> c.api_read_bearer_token is None,
        env.project_tokens is None ==> c.project_tokens is None,
        env.project_basic_auth is None ==> c.project_basic_auth is None,
{
}

/// The settings that are texts, where their variables are not set.
pub proof fn lemma_texts_not_set(env: Environment, c: ServerConfig)
    requires
        config::is_config_of(env, c),
    ensures
        env.database_url is None ==> c.database_url@ == "postgres://dummy_mock_url"@,
        env.api_bearer_token is None ==> c.api_bearer_token@ == "xtrace-default-token"@,
        env.bind_addr is None ==> c.bind_addr@ == "127.0.0.1:8742"@,
        env.default_project_id is None ==> c.default_project_id@ == "default"@,
        env.media_dir is None && !config::in_memory(env) ==> c.media_dir@ == ".xtrace_media"@,
        env.media_dir is None && config::in_memory(env) && env.json_dir is None ==> c.media_dir@
            == media::joined_path("./.xtrace_data"@, "media"@),
        env.media_dir is None ==> (env.json_dir matches Some(d) ==> c.media_dir@
            == media::joined_path(d@, "media"@)),
{
}

/// Each of the two keys is that of the project's own variable where it is set,
/// and that of the compatible one where only that is.
pub proof fn lemma_keys_set(env: Environment, c: ServerConfig)
    requires
        config::is_config_of(env, c),
    ensures
        env.xtrace_public_key matches Some(k) ==> (c.langfuse_public_key matches Some(t) && t@
            == k@),
        env.xtrace_secret_key matches Some(k) ==> (c.langfuse_secret_key matches Some(t) && t@
            == k@),
        env.xtrace_public_key is None ==> (env.langfuse_public_key matches Some(k) ==> (
        c.langfuse_public_key matches Some(t) && t@ == k@)),
        env.xtrace_secret_key is None ==> (env.langfuse_secret_key matches Some(k) ==> (
        c.langfuse_secret_key matches Some(t) && t@ == k@)),
        env.xtrace_public_key is None && env.langfuse_public_key is None
            ==> c.langfuse_public_key is None,
        env.xtrace_secret_key is None && env.langfuse_secret_key is None
            ==> c.langfuse_secret_key is None,
{
}

/// Whether a variable is set to the number `n` in decimal.
pub open spec fn says(o: Option<String>, n: nat) -> bool {
    o matches Some(s) && s@ == text::decimal(n)
}

/// The limits of the server, where their variables are not set, and where they
/// are set to a number that fits.
pub proof fn lemma_limits(env: Environment, c: ServerConfig, n: nat)
    requires
        config::is_config_of(env, c),
    ensures
        env.rate_limit_qps is None ==> c.rate_limit_qps == 20,
        env.rate_limit_burst is None ==> c.rate_limit_burst == 40,
        env.max_request_body_bytes is None ==> c.max_request_body_bytes == 20 * 1024 * 1024,
        env.media_max_content_length is None ==> c.media_max_content_length == 20 * 1024 * 1024,
        env.metrics_query_max_series is None ==> c.metrics_query_max_series == 50,
        env.metrics_query_max_points is None ==> c.metrics_query_max_points_per_series == 1000,
        env.allow_unauthenticated_compat is None ==> !c.allow_unauthenticated_compat,
        env.allow_unauthenticated_compat matches Some(s) ==> (s@ == "1"@
            ==> c.allow_unauthenticated_compat),
        n <= u32::MAX && says(env.rate_limit_qps, n) ==> c.rate_limit_qps == n,
        n <= u32::MAX && says(env.rate_limit_burst, n) ==> c.rate_limit_burst == n,
        n <= usize::MAX && says(env.max_request_body_bytes, n) ==> c.max_request_body_bytes == n,
        n <= usize::MAX && says(env.media_max_content_length, n) ==> c.media_max_content_length
            == n,
        n <= usize::MAX && says(env.metrics_query_max_series, n) ==> c.metrics_query_max_series
            == n,
        n <= usize::MAX && says(env.metrics_query_max_points, n)
            ==> c.metrics_query_max_points_per_series == n,
{
    lemma_number_read_back(n, u32::MAX as nat);
    lemma_number_read_back(n, usize::MAX as nat);
}

/// The limits on stored data: without their variables nothing is ever removed,
/// and a pass is due once a day.
pub proof fn lemma_retention(env: Environment, c: ServerConfig, n: nat)
    requires
        config::is_config_of(env, c),
    ensures
        env.metrics_retention_days is None ==> c.retention.metrics_retention_days == 0,
        env.traces_retention_days is None ==> c.retention.traces_retention_days == 0,
        env.metrics_downsample_after_days is None ==> c.retention.metrics_downsample_after_days
            == 0,
        env.retention_interval_hours is None ==> c.retention.interval_hours == 24,
        env.memory_max_metrics is None ==> c.retention.memory_max_metrics == 0,
        env.memory_max_traces is None ==> c.retention.memory_max_traces == 0,
        n <= u32::MAX && says(env.metrics_retention_days, n) ==> c.retention.metrics_retention_days
            == n,
        n <= u32::MAX && says(env.traces_retention_days, n) ==> c.retention.traces_retention_days
            == n,
        n <= u32::MAX && says(env.metrics_downsample_after_days, n)
            ==> c.retention.metrics_downsample_after_days == n,
        n <= u64::MAX && says(env.retention_interval_hours, n) ==> c.retention.interval_hours == n,
        n <= usize::MAX && says(env.memory_max_metrics, n) ==> c.retention.memory_max_metrics == n,
        n <= usize::MAX && says(env.memory_max_traces, n) ==> c.retention.memory_max_traces == n,
{
    lemma_number_read_back(n, u32::MAX as nat);
    lemma_number_read_back(n, u64::MAX as nat);
    lemma_number_read_back(n, usize::MAX as nat);
}

/// The words for what becomes of a point with labels that break the rules, with
/// the space around them and their case left aside. Any other word, and none,
/// is to drop the labels.
pub proof fn lemma_policy_words(env: Environment, c: ServerConfig)
    requires
        config::is_config_of(env, c),
    ensures
        ({
            let policy = c.label_governance@.policy;
            &&& env.metrics_label_overflow_policy is None ==> policy
                == LabelOverflowPolicy::DropLabels
            &&& env.metrics_label_overflow_policy matches Some(s) ==> {
                let w = text::lowered(text::trimmed(s@));
                &&& policy == LabelOverflowPolicy::RejectPoint <==> w == "reject_point"@ || w
                    == "reject-point"@
                &&& policy == LabelOverflowPolicy::RejectBatch <==> w == "reject_batch"@ || w
                    == "reject-batch"@
            }
        }),
{
    reveal_strlit("drop");
    reveal_strlit("drop_labels");
    reveal_strlit("reject_point");
    reveal_strlit("reject-point");
    reveal_strlit("reject_batch");
    reveal_strlit("reject-batch");
    assert("drop"@[0] == 'd');
    assert("drop_labels"@[0] == 'd');
    assert("reject_point"@[7] == 'p' && "reject_point"@[0] == 'r');
    assert("reject-point"@[7] == 'p' && "reject-point"@[0] == 'r');
    assert("reject_batch"@[7] == 'b' && "reject_batch"@[0] == 'r');
    assert("reject-batch"@[7] == 'b' && "reject-batch"@[0] == 'r');
}

/// The rules on labels: without their variables 64 labels of 256 bytes each may
/// stand, any key is allowed and none denied.
/// A key is allowed or denied by a variable if it is one of its items.
pub proof fn lemma_label_rules(env: Environment, c: ServerConfig, n: nat, key: Seq<char>)
    requires
        config::is_config_of(env, c),
    ensures
        ({
            let rules = c.label_governance@;
            &&& env.metrics_max_labels is None ==> rules.max_labels == 64
            &&& env.metrics_max_label_value_len is None ==> rules.max_value_bytes == 256
            &&& n <= usize::MAX && says(env.metrics_max_labels, n) ==> rules.max_labels == n
            &&& n <= usize::MAX && says(env.metrics_max_label_value_len, n)
                ==> rules.max_value_bytes == n
            &&& env.metrics_label_allowlist is None ==> rules.allow is None
            &&& env.metrics_label_denylist is None ==> !rules.deny.contains(key)
            &&& env.metrics_label_allowlist matches Some(s) ==> (text::items_of(
                text::trimmed(s@),
            ).len() > 0 ==> (rules.allow matches Some(keys) && (keys.contains(key)
                <==> text::items_of(text::trimmed(s@)).contains(key))))
            &&& env.metrics_label_allowlist matches Some(s) ==> (text::items_of(
                text::trimmed(s@),
            ).len() == 0 ==> rules.allow is None)
            &&& env.metrics_label_denylist matches Some(s) ==> (rules.deny.contains(key)
                <==> text::items_of(text::trimmed(s@)).contains(key))
        }),
{
    lemma_number_read_back(n, usize::MAX as nat);
}

}
