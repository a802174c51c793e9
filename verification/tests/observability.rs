use std::time::Duration;
use xtable::blob::{BodyHandle, SpilledBlob};
use xtable::metrics::{all_metrics, InstrumentKind, Metric};
use xtable::recording::{object_key, RecordingBackend, RecordingError, RequestMethod};
use xtable::telemetry::{
    config_of_file, default_filter, default_sample_permille, export_endpoint, load_from_env,
    mark_sampling_priority, merge_with_toml, metric_interval_for, parse_u64, resolve_env,
    resolve_hostname, set_tenant, Layer, ObservabilityConfig, OtlpProtocol, Profile, RequestFacts,
    SemConvMakeSpan, SemConvOnFailure, SemConvOnResponse, SpanOutcome, TelemetryConfig,
    TelemetryEnv,
};
use xtable::text::{to_lower, trim_text};

fn empty_env() -> TelemetryEnv {
    TelemetryEnv {
        endpoint: None,
        protocol: None,
        profile: None,
        service_name: None,
        service_instance_id: None,
        environment: None,
        trace_sample_ratio_bits: None,
        metric_export_interval: None,
        shutdown_flush_timeout: None,
    }
}

#[test]
fn returns_none_when_endpoint_unset() {
    assert!(load_from_env(&empty_env()).is_none());
    let blank = TelemetryEnv { endpoint: Some("  ".into()), ..empty_env() };
    assert!(load_from_env(&blank).is_none());
}

#[test]
fn parses_grpc_default() {
    let env = TelemetryEnv { endpoint: Some("http://otel:4317".into()), ..empty_env() };
    let cfg = load_from_env(&env).unwrap();
    assert_eq!(cfg.protocol, OtlpProtocol::Grpc);
    assert_eq!(cfg.service_name, "xtable");
    // A fresh identifier stands for the missing one.
    assert_eq!(cfg.service_instance_id.len(), 26);
    assert_ne!(cfg.service_instance_id, load_from_env(&env).unwrap().service_instance_id);
}

#[test]
fn parses_http_protobuf() {
    let env = TelemetryEnv {
        endpoint: Some("http://otel:4318".into()),
        protocol: Some("http/protobuf".into()),
        ..empty_env()
    };
    let cfg = load_from_env(&env).unwrap();
    assert_eq!(cfg.protocol, OtlpProtocol::HttpProtobuf);
    let upper = TelemetryEnv { protocol: Some("HTTP".into()), ..env };
    assert_eq!(load_from_env(&upper).unwrap().protocol, OtlpProtocol::HttpProtobuf);
}

#[test]
fn invalid_profile_falls_back() {
    let env = TelemetryEnv {
        endpoint: Some("x".into()),
        profile: Some("garbage".into()),
        ..empty_env()
    };
    let cfg = load_from_env(&env).unwrap();
    assert_eq!(cfg.profile, Profile::Production);
}

#[test]
fn trace_sample_ratio_clamped_or_ignored() {
    let with = |arg: &str| TelemetryEnv {
        endpoint: Some("x".into()),
        trace_sample_ratio_bits: arg.parse::<f64>().ok().map(f64::to_bits),
        ..empty_env()
    };
    assert!(load_from_env(&with("1.5")).unwrap().trace_sample_ratio_bits.is_none());
    for arg in ["-0.1", "nan", "inf", "-inf", "1.0000000000000002"] {
        assert!(load_from_env(&with(arg)).unwrap().trace_sample_ratio_bits.is_none(), "{arg}");
    }
    for arg in ["0", "-0", "1", "0.05", "5e-324"] {
        let ratio: f64 = arg.parse().unwrap();
        assert!((0.0..=1.0).contains(&ratio));
        assert_eq!(
            load_from_env(&with(arg)).unwrap().trace_sample_ratio_bits,
            Some(ratio.to_bits())
        );
    }
}

#[test]
fn production_default_is_5_percent() {
    assert_eq!(default_sample_permille(Profile::Production), 50);
    assert_eq!(default_sample_permille(Profile::Dev), 1000);
    assert_eq!(default_sample_permille(Profile::Staging), 100);
    assert_eq!(default_sample_permille(Profile::Debug), 1000);
}

#[test]
fn metric_intervals_match_profile() {
    assert_eq!(
        metric_interval_for(Profile::Production, None),
        Duration::from_secs(60)
    );
    assert_eq!(
        metric_interval_for(Profile::Dev, None),
        Duration::from_secs(10)
    );
    assert_eq!(
        metric_interval_for(Profile::Staging, None),
        Duration::from_secs(30)
    );
    assert_eq!(
        metric_interval_for(Profile::Production, Some(Duration::from_secs(5))),
        Duration::from_secs(5)
    );
}

#[test]
fn env_filters_per_layer() {
    assert_eq!(default_filter(Layer::Stdout), "info");
    assert_eq!(default_filter(Layer::OtlpTrace), "debug,xtable=trace");
    assert_eq!(default_filter(Layer::OtlpLog), "info");
}

#[test]
fn profiles_are_named_in_any_case() {
    assert_eq!(Profile::from_str("DEV"), Ok(Profile::Dev));
    assert_eq!(Profile::from_str("production"), Ok(Profile::Production));
    assert!(Profile::from_str("garbage").is_err());
}

#[test]
fn numbers_are_read_as_std_reads_them() {
    for s in [
        "0", "60", "+7", "007", "18446744073709551615", "18446744073709551616", "", "+", "-1",
        " 1", "1 ", "1a", "99999999999999999999999",
    ] {
        assert_eq!(parse_u64(s), s.parse::<u64>().ok(), "{s:?}");
    }
}

fn file() -> ObservabilityConfig {
    ObservabilityConfig {
        service_name: "svc".into(),
        service_instance_id: Some("inst".into()),
        environment: "prod".into(),
        profile: "staging".into(),
        trace_sample_ratio_bits: Some(0.25f64.to_bits()),
        metric_export_interval_secs: 15,
        shutdown_flush_timeout_secs: 3,
        enable_per_table_metrics: true,
    }
}

#[test]
fn the_environment_is_the_switch() {
    assert!(merge_with_toml(None, &file()).is_none());
    let from_file = TelemetryConfig::from(file());
    assert!(from_file.endpoint.is_none());
    assert_eq!(from_file.profile, Profile::Staging);
    assert!(export_endpoint(&from_file).is_none());
    assert_eq!(config_of_file(&file(), "x").service_instance_id, "inst");
    let env = TelemetryEnv { endpoint: Some("http://otel:4317".into()), ..empty_env() };
    let merged = merge_with_toml(resolve_env(&env, "id"), &file()).unwrap();
    assert_eq!(merged.endpoint.as_deref(), Some("http://otel:4317"));
    assert_eq!(merged.profile, Profile::Production);
    assert_eq!(merged.trace_sample_ratio_bits, Some(0.25f64.to_bits()));
    assert!(merged.enable_per_table_metrics);
    assert_eq!(export_endpoint(&merged).as_deref(), Some("http://otel:4317"));
}

#[test]
fn baggage_members() {
    assert_eq!(set_tenant("acme".into()).1, "acme");
    assert_ne!(mark_sampling_priority().0, "");
}

fn request(method: &str, path: &str) -> RequestFacts {
    RequestFacts {
        method: method.into(),
        route: None,
        path: path.into(),
        scheme: None,
        version: "HTTP/1.1".into(),
        user_agent: None,
        content_length: None,
    }
}

#[test]
fn make_span_creates_with_required_attrs() {
    let f = SemConvMakeSpan.span_fields(&request("POST", "/v1/spaces/foo/tables/users/records"));
    assert_eq!(f.method, "POST");
    assert_eq!(f.path, "/v1/spaces/foo/tables/users/records");
    assert_eq!(f.body_size, 0);
}

#[test]
fn semconv_make_span_attributes_match_baseline() {
    let mut req = request("GET", "/v1/spaces/acme/tables/users/records");
    req.user_agent = Some("xtable-test/1.0".into());
    let f = SemConvMakeSpan.span_fields(&req);
    assert_eq!(f.method, "GET");
    assert_eq!(f.route, "unknown");
    assert_eq!(f.scheme, "http");
    assert_eq!(f.path, "/v1/spaces/acme/tables/users/records");
    assert_eq!(f.user_agent, "xtable-test/1.0");
    assert_eq!(f.version, "HTTP/1.1");
    req.content_length = Some("512".into());
    assert_eq!(SemConvMakeSpan.span_fields(&req).body_size, 512);
}

#[test]
fn responses_decide_the_span_status() {
    assert_eq!(SemConvOnResponse.outcome(200), SpanOutcome::Fine);
    assert_eq!(SemConvOnResponse.outcome(404), SpanOutcome::Unchanged);
    assert!(matches!(SemConvOnResponse.outcome(503), SpanOutcome::Failed(_)));
    assert_eq!(SemConvOnFailure.status_code(), "ERROR");
}

#[test]
fn all_instruments_registered_and_recording() {
    let names: Vec<&str> = all_metrics().iter().map(|m| m.instrument().name).collect();
    for expected in [
        "http.server.request.duration",
        "http.server.requests",
        "http.server.active_requests",
        "txn.commit.count",
        "txn.ssi.conflict.count",
        "process.runtime.uptime",
    ] {
        assert!(names.contains(&expected), "missing instrument {expected}");
    }
    let mut unique = names.clone();
    unique.sort();
    unique.dedup();
    assert_eq!(unique.len(), names.len());
    assert_eq!(Metric::HttpActiveRequests.instrument().kind, InstrumentKind::UpDownCounter);
}

#[test]
fn host_names() {
    assert_eq!(resolve_hostname(Some("a".into()), Some("b".into())), "a");
    assert_eq!(resolve_hostname(None, Some(" b\n".into())), "b");
    assert_eq!(resolve_hostname(None, None), "unknown");
}

#[test]
fn bodies_inline_and_spilled() {
    let inline = BodyHandle::inline(b"abc".to_vec());
    assert_eq!(inline.len(), 3);
    assert!(!inline.is_empty());
    assert_eq!(inline.read(&Err("unused".into())).unwrap(), b"abc");
    let spilled = BodyHandle {
        inline: None,
        spilled: Some(SpilledBlob { path: "p".into(), size: 5, sha256: "h".into() }),
    };
    assert_eq!(spilled.len(), 5);
    assert_eq!(spilled.read(&Ok(b"hello".to_vec())).unwrap(), b"hello");
    assert!(spilled.read(&Err("gone".into())).is_err());
    let neither = BodyHandle { inline: None, spilled: None };
    assert!(neither.is_empty());
}

#[test]
fn the_recorder_stores_and_counts() {
    let mut b = RecordingBackend::new();
    let meta = vec![
        ("x-amz-meta-a".to_string(), "1".to_string()),
        ("host".to_string(), "h".to_string()),
        ("X-Amz-Meta-A".to_string(), "2".to_string()),
    ];
    assert_eq!(object_key("/bucket/a/b"), "a/b");
    assert_eq!(b.handle(RequestMethod::Get, "/bucket/a/b", &vec![], vec![]).status, 404);
    assert_eq!(b.handle(RequestMethod::Put, "/bucket/a/b", &meta, b"xy".to_vec()).status, 200);
    let got = b.handle(RequestMethod::Get, "/bucket/a/b", &vec![], vec![]);
    assert_eq!(got.body, b"xy");
    let stored = b.objects.get(&"a/b".to_string()).unwrap();
    assert_eq!(stored.meta.len(), 1);
    assert_eq!(stored.meta.get(&"x-amz-meta-a".to_string()), Some(&"2".to_string()));
    assert_eq!(b.handle(RequestMethod::Head, "/bucket/a/b", &vec![], vec![]).status, 200);
    assert_eq!(b.handle(RequestMethod::Delete, "/bucket/a/b", &vec![], vec![]).status, 204);
    assert_eq!(b.handle(RequestMethod::Head, "/bucket/a/b", &vec![], vec![]).status, 404);
    assert_eq!(b.counters.put_object_calls(), 1);
    assert_eq!(b.counters.get_object_calls(), 2);
    assert_eq!(b.counters.delete_object_calls(), 1);
    assert_eq!(b.counters.head_object_calls(), 2);
    assert!(RecordingError::Bind("in use".into()).message().contains("in use"));
}

#[test]
fn texts_are_lowered_and_trimmed() {
    assert_eq!(to_lower("AZ-az09[@`{ \u{c4}\u{212a}"), "az-az09[@`{ \u{c4}\u{212a}");
    assert_eq!(to_lower("ABCDEFGHIJKLMNOPQRSTUVWXYZ"), "abcdefghijklmnopqrstuvwxyz");
    assert_eq!(to_lower(""), "");
    assert_eq!(trim_text("\u{3000}\t a b\u{2009}\u{85}\r\n"), "a b");
    assert_eq!(trim_text("\u{200b}x"), "\u{200b}x");
    assert_eq!(trim_text(" \u{a0} "), "");
    assert_eq!(trim_text(""), "");
    for t in ["  Ab \u{1680}", "\u{feff}q ", "\u{1f}x\u{1c}", "\u{2028}\u{205f}Z\u{202f}"] {
        assert_eq!(trim_text(t), t.trim());
        assert_eq!(to_lower(t), t.to_ascii_lowercase());
    }
}
