//! Telemetry: configuration, profiles, baggage, HTTP span attributes and
//! resource attributes.
//!
//! Everything here works on plain values. Exporters, providers and subscribers
//! are built from them by the caller. A sampling ratio is carried as the bits
//! of the number.

use crate::order::same_text;
use crate::outside::{fresh_ulid, seconds, span_of_seconds};
use crate::text::{
    decimal, decimal_text, join2, join3, lower_text, optional_text, to_lower, trim_text, trimmed,
};
use std::time::Duration;
use vstd::prelude::*;
use vstd::string::*;

verus! {

/// Transport protocol of the exporter.
#[derive(Debug, Clone, Copy, PartialEq, Eq, Structural)]
pub enum OtlpProtocol {
    Grpc,
    HttpProtobuf,
}

impl Default for OtlpProtocol {
    fn default() -> (r: Self)
        ensures
            r == OtlpProtocol::Grpc,
    {
        OtlpProtocol::Grpc
    }
}

/// Operational profile: decides sampling, filters and metric intervals.
#[derive(Debug, Clone, Copy, PartialEq, Eq, Structural)]
pub enum Profile {
    Dev,
    Staging,
    Production,
    Debug,
}

/// The profile that a lower-case text names.
pub open spec fn named_profile(t: Seq<char>) -> Option<Profile> {
    if t == "dev"@ {
        Some(Profile::Dev)
    } else if t == "staging"@ {
        Some(Profile::Staging)
    } else if t == "production"@ || t == "prod"@ {
        Some(Profile::Production)
    } else if t == "debug"@ || t == "incident"@ {
        Some(Profile::Debug)
    } else {
        None
    }
}

/// Error for a text that names no profile.
pub open spec fn unknown_profile_text(t: Seq<char>) -> Seq<char> {
    "unknown profile '"@ + t + "'; expected one of dev|staging|production|debug"@
}

impl Profile {
    /// The profile that the text names, whatever the case of its letters.
    pub fn from_str(s: &str) -> (r: Result<Self, String>)
        ensures
            match named_profile(lower_text(s@)) {
                Some(p) => r == Ok::<Profile, String>(p),
                None => r matches Err(m) && m@ == unknown_profile_text(lower_text(s@)),
            },
    {
        let name = to_lower(s);
        let t = name.as_str();
        if same_text(t, "dev") {
            Ok(Profile::Dev)
        } else if same_text(t, "staging") {
            Ok(Profile::Staging)
        } else if same_text(t, "production") || same_text(t, "prod") {
            Ok(Profile::Production)
        } else if same_text(t, "debug") || same_text(t, "incident") {
            Ok(Profile::Debug)
        } else {
            Err(
                join3(
                    "unknown profile '",
                    t,
                    "'; expected one of dev|staging|production|debug",
                ),
            )
        }
    }
}

// ----- numbers -----

/// Value of the decimal digits of `t` from `from` up to `n`.
pub open spec fn digits_value(t: Seq<char>, from: int, n: int) -> nat
    decreases n - from,
{
    if n <= from {
        0
    } else {
        digits_value(t, from, n - 1) * 10 + (t[n - 1] as nat - '0' as nat) as nat
    }
}

/// The character is a decimal digit.
pub open spec fn is_digit(c: char) -> bool {
    '0' <= c <= '9'
}

/// The number that the text stands for: decimal digits, behind an optional
/// plus sign, that fit sixty-four bits.
pub open spec fn parsed_u64(t: Seq<char>) -> Option<u64> {
    let from = if t.len() > 0 && t[0] == '+' {
        1int
    } else {
        0int
    };
    if t.len() > from && (forall|i: int| from <= i < t.len() ==> is_digit(#[trigger] t[i]))
        && digits_value(t, from, t.len() as int) <= u64::MAX {
        Some(digits_value(t, from, t.len() as int) as u64)
    } else {
        None
    }
}

proof fn lemma_digits_grow(t: Seq<char>, from: int, m: int, n: int)
    requires
        0 <= from <= m <= n,
    ensures
        digits_value(t, from, m) <= digits_value(t, from, n),
    decreases n - m,
{
    if m < n {
        lemma_digits_grow(t, from, m, n - 1);
    }
}

fn digit_of(c: char) -> (r: Option<u64>)
    ensures
        match r {
            Some(d) => is_digit(c) && d == c as nat - '0' as nat,
            None => !is_digit(c),
        },
{
    if '0' <= c && c <= '9' {
        Some(c as u64 - '0' as u64)
    } else {
        None
    }
}

/// The number that the text stands for.
pub fn parse_u64(s: &str) -> (r: Option<u64>)
    ensures
        r == parsed_u64(s@),
{
    let n = s.unicode_len();
    let from: usize = if n > 0 && s.get_char(0) == '+' {
        1
    } else {
        0
    };
    if n <= from {
        return None;
    }
    let mut v: u64 = 0;
    let mut i: usize = from;
    while i < n
        invariant
            n == s@.len(),
            from <= i <= n,
            from == if s@.len() > 0 && s@[0] == '+' {
                1int
            } else {
                0int
            },
            forall|j: int| from <= j < i ==> is_digit(#[trigger] s@[j]),
            v == digits_value(s@, from as int, i as int),
        decreases n - i,
    {
        match digit_of(s.get_char(i)) {
            None => {
                assert(!is_digit(s@[i as int]));
                return None;
            },
            Some(d) => {
                proof {
                    lemma_digits_grow(s@, from as int, i + 1, n as int);
                }
                match v.checked_mul(10) {
                    None => {
                        return None;
                    },
                    Some(w) => match w.checked_add(d) {
                        None => {
                            return None;
                        },
                        Some(x) => {
                            v = x;
                        },
                    },
                }
            },
        }
        i += 1;
    }
    Some(v)
}

// ----- configuration -----

/// Bits of the double one.
pub const RATIO_ONE: u64 = 0x3FF0_0000_0000_0000;

/// Bits of the double negative zero.
pub const RATIO_MINUS_ZERO: u64 = 0x8000_0000_0000_0000;

/// Resolved telemetry configuration.
#[derive(Debug)]
pub struct TelemetryConfig {
    pub endpoint: Option<String>,
    pub protocol: OtlpProtocol,
    pub service_name: String,
    pub service_instance_id: String,
    pub environment: String,
    pub profile: Profile,
    /// Bits of the sampling ratio.
    pub trace_sample_ratio_bits: Option<u64>,
    pub metric_export_interval_secs: u64,
    pub shutdown_flush_timeout_secs: u64,
    pub enable_per_table_metrics: bool,
}

/// Mathematical view of a [`TelemetryConfig`].
pub ghost struct TelemetryConfigView {
    pub endpoint: Option<Seq<char>>,
    pub protocol: OtlpProtocol,
    pub service_name: Seq<char>,
    pub service_instance_id: Seq<char>,
    pub environment: Seq<char>,
    pub profile: Profile,
    pub trace_sample_ratio_bits: Option<u64>,
    pub metric_export_interval_secs: u64,
    pub shutdown_flush_timeout_secs: u64,
    pub enable_per_table_metrics: bool,
}

impl View for TelemetryConfig {
    type V = TelemetryConfigView;

    open spec fn view(&self) -> TelemetryConfigView {
        TelemetryConfigView {
            endpoint: optional_text(self.endpoint),
            protocol: self.protocol,
            service_name: self.service_name@,
            service_instance_id: self.service_instance_id@,
            environment: self.environment@,
            profile: self.profile,
            trace_sample_ratio_bits: self.trace_sample_ratio_bits,
            metric_export_interval_secs: self.metric_export_interval_secs,
            shutdown_flush_timeout_secs: self.shutdown_flush_timeout_secs,
            enable_per_table_metrics: self.enable_per_table_metrics,
        }
    }
}

/// Values of the environment variables that telemetry reads. The ratio is
/// there only where its variable holds a number, which may be any.
#[derive(Debug)]
pub struct TelemetryEnv {
    /// `OTEL_EXPORTER_OTLP_ENDPOINT`
    pub endpoint: Option<String>,
    /// `OTEL_EXPORTER_OTLP_PROTOCOL`
    pub protocol: Option<String>,
    /// `OTEL_PROFILE`
    pub profile: Option<String>,
    /// `OTEL_SERVICE_NAME`
    pub service_name: Option<String>,
    /// `OTEL_SERVICE_INSTANCE_ID`
    pub service_instance_id: Option<String>,
    /// `XTABLE_ENV`
    pub environment: Option<String>,
    /// `OTEL_TRACES_SAMPLER_ARG`
    pub trace_sample_ratio_bits: Option<u64>,
    /// `OTEL_METRIC_EXPORT_INTERVAL`
    pub metric_export_interval: Option<String>,
    /// `OTEL_SHUTDOWN_FLUSH_TIMEOUT_SECS`
    pub shutdown_flush_timeout: Option<String>,
}

/// The text, or a default where there is none.
pub open spec fn text_or(t: Option<String>, default: Seq<char>) -> Seq<char> {
    match t {
        Some(x) => x@,
        None => default,
    }
}

/// The number that a variable holds, or a default where it holds none.
pub open spec fn number_or(t: Option<String>, default: u64) -> u64 {
    match t {
        Some(x) => match parsed_u64(x@) {
            Some(n) => n,
            None => default,
        },
        None => default,
    }
}

/// The protocol that a variable names.
pub open spec fn protocol_of(t: Option<String>) -> OtlpProtocol {
    let name = lower_text(text_or(t, Seq::empty()));
    if name == "http/protobuf"@ || name == "http"@ {
        OtlpProtocol::HttpProtobuf
    } else {
        OtlpProtocol::Grpc
    }
}

/// The bits are those of a double from zero to one. Doubles that are not
/// negative are ordered as their bits are; one has the bits of `RATIO_ONE`, and
/// negative zero, which equals zero, those of `RATIO_MINUS_ZERO`.
pub open spec fn is_ratio(bits: u64) -> bool {
    bits <= RATIO_ONE || bits == RATIO_MINUS_ZERO
}

/// The ratio, where it is one from zero to one.
pub open spec fn usable_ratio(bits: Option<u64>) -> Option<u64> {
    match bits {
        Some(b) => if is_ratio(b) {
            Some(b)
        } else {
            None
        },
        None => None,
    }
}

/// The profile that a text names, else production.
pub open spec fn profile_or_production(t: Seq<char>) -> Profile {
    match named_profile(lower_text(t)) {
        Some(p) => p,
        None => Profile::Production,
    }
}

/// The text holds something besides white space.
pub open spec fn has_text(t: Seq<char>) -> bool {
    trimmed(t).len() > 0
}

/// Configuration that the environment gives. There is none without an
/// endpoint.
pub open spec fn env_config(env: TelemetryEnv, fresh_id: Seq<char>) -> Option<TelemetryConfigView> {
    match env.endpoint {
        Some(e) => if has_text(e@) {
            Some(
                TelemetryConfigView {
                    endpoint: Some(e@),
                    protocol: protocol_of(env.protocol),
                    service_name: text_or(env.service_name, "xtable"@),
                    service_instance_id: text_or(env.service_instance_id, fresh_id),
                    environment: text_or(env.environment, "dev"@),
                    profile: profile_or_production(text_or(env.profile, "production"@)),
                    trace_sample_ratio_bits: usable_ratio(env.trace_sample_ratio_bits),
                    metric_export_interval_secs: number_or(env.metric_export_interval, 60),
                    shutdown_flush_timeout_secs: number_or(env.shutdown_flush_timeout, 10),
                    enable_per_table_metrics: false,
                },
            )
        } else {
            None
        },
        None => None,
    }
}

fn text_or_else(t: &Option<String>, default: &str) -> (r: String)
    ensures
        r@ == text_or(*t, default@),
{
    match t {
        Some(x) => x.clone(),
        None => default.to_owned(),
    }
}

fn number_or_else(t: &Option<String>, default: u64) -> (r: u64)
    ensures
        r == number_or(*t, default),
{
    match t {
        Some(x) => match parse_u64(x.as_str()) {
            Some(n) => n,
            None => default,
        },
        None => default,
    }
}

fn profile_named(t: &str) -> (r: Profile)
    ensures
        r == profile_or_production(t@),
{
    match Profile::from_str(t) {
        Ok(p) => p,
        Err(_) => Profile::Production,
    }
}

/// Whether the text holds something besides white space.
pub fn holds_something(t: &str) -> (r: bool)
    ensures
        r == has_text(t@),
{
    let s = trim_text(t);
    s.as_str().unicode_len() > 0
}

/// Configuration that the environment gives, with `fresh_id` where it names no
/// instance.
pub fn resolve_env(env: &TelemetryEnv, fresh_id: &str) -> (r: Option<TelemetryConfig>)
    ensures
        match r {
            Some(c) => env_config(*env, fresh_id@) == Some(c@),
            None => env_config(*env, fresh_id@) is None,
        },
{
    let endpoint = match &env.endpoint {
        Some(e) => e.clone(),
        None => {
            return None;
        },
    };
    if !holds_something(endpoint.as_str()) {
        return None;
    }
    let named = match &env.protocol {
        Some(p) => to_lower(p.as_str()),
        None => String::new(),
    };
    assert(named@ =~= lower_text(text_or(env.protocol, Seq::empty())));
    let protocol = if same_text(named.as_str(), "http/protobuf") || same_text(
        named.as_str(),
        "http",
    ) {
        OtlpProtocol::HttpProtobuf
    } else {
        OtlpProtocol::Grpc
    };
    let profile_text = text_or_else(&env.profile, "production");
    let ratio = match env.trace_sample_ratio_bits {
        Some(b) => if b <= RATIO_ONE || b == RATIO_MINUS_ZERO {
            Some(b)
        } else {
            None
        },
        None => None,
    };
    Some(
        TelemetryConfig {
            endpoint: Some(endpoint),
            protocol,
            service_name: text_or_else(&env.service_name, "xtable"),
            service_instance_id: text_or_else(&env.service_instance_id, fresh_id),
            environment: text_or_else(&env.environment, "dev"),
            profile: profile_named(profile_text.as_str()),
            trace_sample_ratio_bits: ratio,
            metric_export_interval_secs: number_or_else(&env.metric_export_interval, 60),
            shutdown_flush_timeout_secs: number_or_else(&env.shutdown_flush_timeout, 10),
            enable_per_table_metrics: false,
        },
    )
}

/// Configuration that the environment gives. Where it names no instance, a
/// fresh identifier stands for it.
pub fn load_from_env(env: &TelemetryEnv) -> (r: Option<TelemetryConfig>)
    ensures
        exists|id: Seq<char>|
            id.len() == 26 && match r {
                Some(c) => #[trigger] env_config(*env, id) == Some(c@),
                None => env_config(*env, id) is None,
            },
{
    let id = fresh_ulid();
    resolve_env(env, id.as_str())
}

/// The observability section of the configuration file.
#[derive(Debug)]
pub struct ObservabilityConfig {
    pub service_name: String,
    pub service_instance_id: Option<String>,
    pub environment: String,
    pub profile: String,
    /// Bits of the sampling ratio.
    pub trace_sample_ratio_bits: Option<u64>,
    pub metric_export_interval_secs: u64,
    pub shutdown_flush_timeout_secs: u64,
    pub enable_per_table_metrics: bool,
}

/// Configuration of the environment, filled up from the file.
pub open spec fn merged(c: TelemetryConfigView, toml: ObservabilityConfig) -> TelemetryConfigView {
    TelemetryConfigView {
        service_name: if c.service_name == "xtable"@ {
            toml.service_name@
        } else {
            c.service_name
        },
        environment: if c.environment == "dev"@ && toml.environment@ != "dev"@ {
            toml.environment@
        } else {
            c.environment
        },
        service_instance_id: text_or(toml.service_instance_id, c.service_instance_id),
        trace_sample_ratio_bits: match c.trace_sample_ratio_bits {
            Some(b) => Some(b),
            None => toml.trace_sample_ratio_bits,
        },
        metric_export_interval_secs: if toml.metric_export_interval_secs != 60 {
            toml.metric_export_interval_secs
        } else {
            c.metric_export_interval_secs
        },
        shutdown_flush_timeout_secs: if toml.shutdown_flush_timeout_secs != 10 {
            toml.shutdown_flush_timeout_secs
        } else {
            c.shutdown_flush_timeout_secs
        },
        enable_per_table_metrics: toml.enable_per_table_metrics,
        ..c
    }
}

/// Merges the configuration of the environment over that of the file. Without
/// the former there is none. Endpoint, protocol and profile of the environment
/// stand.
pub fn merge_with_toml(env_cfg: Option<TelemetryConfig>, toml: &ObservabilityConfig) -> (r: Option<
    TelemetryConfig,
>)
    ensures
        match env_cfg {
            None => r is None,
            Some(c) => r matches Some(m) && m@ == merged(c@, *toml),
        },
{
    let mut cfg = match env_cfg {
        Some(c) => c,
        None => {
            return None;
        },
    };
    if same_text(cfg.service_name.as_str(), "xtable") {
        cfg.service_name = toml.service_name.clone();
    }
    if same_text(cfg.environment.as_str(), "dev") && !same_text(toml.environment.as_str(), "dev") {
        cfg.environment = toml.environment.clone();
    }
    if let Some(id) = &toml.service_instance_id {
        cfg.service_instance_id = id.clone();
    }
    if cfg.trace_sample_ratio_bits.is_none() {
        cfg.trace_sample_ratio_bits = toml.trace_sample_ratio_bits;
    }
    if toml.metric_export_interval_secs != 60 {
        cfg.metric_export_interval_secs = toml.metric_export_interval_secs;
    }
    if toml.shutdown_flush_timeout_secs != 10 {
        cfg.shutdown_flush_timeout_secs = toml.shutdown_flush_timeout_secs;
    }
    cfg.enable_per_table_metrics = toml.enable_per_table_metrics;
    Some(cfg)
}

/// Configuration of the file alone. It never turns telemetry on.
pub open spec fn file_config(toml: ObservabilityConfig, fresh_id: Seq<char>) -> TelemetryConfigView {
    TelemetryConfigView {
        endpoint: None,
        protocol: OtlpProtocol::Grpc,
        service_name: toml.service_name@,
        service_instance_id: text_or(toml.service_instance_id, fresh_id),
        environment: toml.environment@,
        profile: profile_or_production(toml.profile@),
        trace_sample_ratio_bits: toml.trace_sample_ratio_bits,
        metric_export_interval_secs: toml.metric_export_interval_secs,
        shutdown_flush_timeout_secs: toml.shutdown_flush_timeout_secs,
        enable_per_table_metrics: toml.enable_per_table_metrics,
    }
}

/// Configuration of the file alone, with `fresh_id` where it names no
/// instance.
pub fn config_of_file(toml: &ObservabilityConfig, fresh_id: &str) -> (r: TelemetryConfig)
    ensures
        r@ == file_config(*toml, fresh_id@),
{
    TelemetryConfig {
        endpoint: None,
        protocol: OtlpProtocol::default(),
        service_name: toml.service_name.clone(),
        service_instance_id: text_or_else(&toml.service_instance_id, fresh_id),
        environment: toml.environment.clone(),
        profile: profile_named(toml.profile.as_str()),
        trace_sample_ratio_bits: toml.trace_sample_ratio_bits,
        metric_export_interval_secs: toml.metric_export_interval_secs,
        shutdown_flush_timeout_secs: toml.shutdown_flush_timeout_secs,
        enable_per_table_metrics: toml.enable_per_table_metrics,
    }
}

impl From<ObservabilityConfig> for TelemetryConfig {
    /// Configuration of the file alone. Where it names no instance, a fresh
    /// identifier stands for it.
    fn from(toml: ObservabilityConfig) -> (r: Self)
        ensures
            exists|id: Seq<char>| id.len() == 26 && r@ == #[trigger] file_config(toml, id),
    {
        let id = fresh_ulid();
        config_of_file(&toml, id.as_str())
    }
}

impl vstd::std_specs::convert::FromSpecImpl<ObservabilityConfig> for TelemetryConfig {
    open spec fn obeys_from_spec() -> bool {
        false
    }

    open spec fn from_spec(toml: ObservabilityConfig) -> Self {
        arbitrary()
    }
}

/// The endpoint to export to, if telemetry is on.
pub fn export_endpoint(cfg: &TelemetryConfig) -> (r: Option<String>)
    ensures
        optional_text(r) == match cfg@.endpoint {
            Some(e) => if has_text(e) {
                Some(e)
            } else {
                None
            },
            None => None,
        },
{
    match &cfg.endpoint {
        Some(e) => {
            if holds_something(e.as_str()) {
                Some(e.clone())
            } else {
                None
            }
        },
        None => None,
    }
}

// ----- profiles -----

/// Telemetry layers. Each has a filter of its own.
#[derive(Debug, Clone, Copy, PartialEq, Eq, Structural)]
pub enum Layer {
    Stdout,
    OtlpTrace,
    OtlpLog,
}

/// Default filter of a layer.
pub open spec fn layer_filter(layer: Layer) -> Seq<char> {
    match layer {
        Layer::Stdout => "info"@,
        Layer::OtlpTrace => "debug,xtable=trace"@,
        Layer::OtlpLog => "info"@,
    }
}

/// Default filter of a layer, for where the environment sets none.
pub fn default_filter(layer: Layer) -> (r: &'static str)
    ensures
        r@ == layer_filter(layer),
{
    match layer {
        Layer::Stdout => "info",
        Layer::OtlpTrace => "debug,xtable=trace",
        Layer::OtlpLog => "info",
    }
}

/// Default share of traces that a profile samples, in thousandths.
pub fn default_sample_permille(profile: Profile) -> (r: u32)
    ensures
        r == match profile {
            Profile::Dev | Profile::Debug => 1000,
            Profile::Staging => 100,
            Profile::Production => 50u32,
        },
{
    match profile {
        Profile::Dev | Profile::Debug => 1000,
        Profile::Staging => 100,
        Profile::Production => 50,
    }
}

/// Seconds between metric exports of a profile.
pub open spec fn profile_interval(profile: Profile) -> u64 {
    match profile {
        Profile::Dev | Profile::Debug => 10,
        Profile::Staging => 30,
        Profile::Production => 60,
    }
}

/// Metric export interval of a profile, unless overridden.
pub fn metric_interval_for(profile: Profile, override_: Option<Duration>) -> (r: Duration)
    ensures
        r == match override_ {
            Some(d) => d,
            None => seconds(profile_interval(profile)),
        },
{
    match override_ {
        Some(d) => d,
        None => {
            let n: u64 = match profile {
                Profile::Dev | Profile::Debug => 10,
                Profile::Staging => 30,
                Profile::Production => 60,
            };
            span_of_seconds(n)
        },
    }
}

// ----- baggage -----

/// Baggage entry of the tenant.
pub fn set_tenant(v: String) -> (r: (String, String))
    ensures
        r.0@ == "tenant"@,
        r.1@ == v@,
{
    ("tenant".to_owned(), v)
}

/// Baggage entry of the space.
pub fn set_space(v: String) -> (r: (String, String))
    ensures
        r.0@ == "space"@,
        r.1@ == v@,
{
    ("space".to_owned(), v)
}

/// Baggage entry of the request id.
pub fn set_request_id(v: String) -> (r: (String, String))
    ensures
        r.0@ == "request.id"@,
        r.1@ == v@,
{
    ("request.id".to_owned(), v)
}

/// Baggage entry that marks a sample of high priority.
pub fn mark_sampling_priority() -> (r: (String, String))
    ensures
        r.0@ == "sampling.priority"@,
        r.1@ == "true"@,
{
    ("sampling.priority".to_owned(), "true".to_owned())
}

// ----- HTTP spans -----

/// What a span records of a request.
#[derive(Debug)]
pub struct RequestFacts {
    pub method: String,
    /// Route template, where one matched.
    pub route: Option<String>,
    pub path: String,
    pub scheme: Option<String>,
    pub version: String,
    pub user_agent: Option<String>,
    pub content_length: Option<String>,
}

/// Attributes of a server span, before the response is known.
#[derive(Debug)]
pub struct SpanFields {
    pub method: String,
    pub route: String,
    pub path: String,
    pub scheme: String,
    pub version: String,
    pub user_agent: String,
    pub body_size: u64,
}

/// Makes the attributes of server spans.
#[derive(Debug, Clone, Copy)]
pub struct SemConvMakeSpan;

impl SemConvMakeSpan {
    /// Attributes of the span of a request.
    pub fn span_fields(&self, req: &RequestFacts) -> (r: SpanFields)
        ensures
            r.method@ == req.method@,
            r.route@ == text_or(req.route, "unknown"@),
            r.path@ == req.path@,
            r.scheme@ == text_or(req.scheme, "http"@),
            r.version@ == req.version@,
            r.user_agent@ == text_or(req.user_agent, ""@),
            r.body_size == number_or(req.content_length, 0),
    {
        SpanFields {
            method: req.method.clone(),
            route: text_or_else(&req.route, "unknown"),
            path: req.path.clone(),
            scheme: text_or_else(&req.scheme, "http"),
            version: req.version.clone(),
            user_agent: text_or_else(&req.user_agent, ""),
            body_size: number_or_else(&req.content_length, 0),
        }
    }
}

/// What a response makes of the status of its span.
#[derive(Debug, PartialEq, Eq)]
pub enum SpanOutcome {
    /// The span is marked as fine.
    Fine,
    /// The span's status is left alone.
    Unchanged,
    /// The span is marked as failed, with this text.
    Failed(String),
}

/// Classifies responses.
#[derive(Debug, Clone, Copy)]
pub struct SemConvOnResponse;

impl SemConvOnResponse {
    /// Outcome of a response: statuses below 400 are fine, those of client
    /// errors say nothing of the server, all others are failures.
    pub fn outcome(&self, status: u16) -> (r: SpanOutcome)
        ensures
            100 <= status < 400 ==> r is Fine,
            400 <= status < 500 ==> r is Unchanged,
            status < 100 || status >= 500 ==> (r matches SpanOutcome::Failed(t) && t@ == "HTTP "@
                + decimal(status as nat)),
    {
        if 100 <= status && status <= 399 {
            SpanOutcome::Fine
        } else if 400 <= status && status <= 499 {
            SpanOutcome::Unchanged
        } else {
            let n = decimal_text(status as u64);
            SpanOutcome::Failed(join2("HTTP ", n.as_str()))
        }
    }
}

/// Marks the spans of requests that failed.
#[derive(Debug, Clone, Copy)]
pub struct SemConvOnFailure;

impl SemConvOnFailure {
    /// Status code of the span of a request that failed.
    pub fn status_code(&self) -> (r: &'static str)
        ensures
            r@ == "ERROR"@,
    {
        "ERROR"
    }
}

// ----- resource -----

/// Name of the host: that of the environment, else that of the system without
/// white space at its ends, else `unknown`.
pub fn resolve_hostname(env_name: Option<String>, system_name: Option<String>) -> (r: String)
    ensures
        r@ == match (env_name, system_name) {
            (Some(n), _) => n@,
            (None, Some(n)) => trimmed(n@),
            (None, None) => "unknown"@,
        },
{
    match env_name {
        Some(n) => n,
        None => match system_name {
            Some(n) => trim_text(n.as_str()),
            None => "unknown".to_owned(),
        },
    }
}

// ----- laws -----

/// A file alone never turns telemetry on, and a file never changes endpoint,
/// protocol or profile of the environment.
pub proof fn law_environment_is_the_switch(
    c: TelemetryConfigView,
    toml: ObservabilityConfig,
    id: Seq<char>,
)
    ensures
        file_config(toml, id).endpoint is None,
        merged(c, toml).endpoint == c.endpoint,
        merged(c, toml).protocol == c.protocol,
        merged(c, toml).profile == c.profile,
        c.trace_sample_ratio_bits is Some ==> merged(c, toml).trace_sample_ratio_bits
            == c.trace_sample_ratio_bits,
{
}

/// Telemetry stays off without an endpoint, whatever else the environment
/// holds.
pub proof fn law_no_endpoint_no_telemetry(env: TelemetryEnv, id: Seq<char>)
    ensures
        env_config(env, id) is Some <==> (env.endpoint matches Some(e) && has_text(e@)),
{
}

} // verus!
