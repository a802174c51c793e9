//! Laws of the telemetry configuration: what the environment and a file each
//! decide.

use crate::telemetry::{
    env_config, file_config, merged, named_profile, parsed_u64, profile_interval,
    profile_or_production, ObservabilityConfig, OtlpProtocol, Profile, TelemetryConfigView,
    TelemetryEnv,
};
use crate::text::{lower_text, trimmed};
use vstd::prelude::*;

verus! {

/// With an endpoint that is not blank, every setting is what the environment
/// says, and its default where it says nothing. Numbers that are none, and
/// ratios outside of zero to one, count as not said.
pub proof fn law_environment_settings(env: TelemetryEnv, id: Seq<char>)
    requires
        env.endpoint is Some,
        trimmed(env.endpoint->0@).len() > 0,
    ensures
        env_config(env, id) is Some,
        ({
            let c = env_config(env, id)->0;
            let http = env.protocol is Some && (lower_text(env.protocol->0@) == "http/protobuf"@
                || lower_text(env.protocol->0@) == "http"@);
            let ratio = env.trace_sample_ratio_bits;
            &&& c.endpoint == Some(env.endpoint->0@)
            &&& c.protocol == OtlpProtocol::HttpProtobuf <==> http
            &&& c.protocol == OtlpProtocol::Grpc <==> !http
            &&& c.service_name == if env.service_name is Some {
                env.service_name->0@
            } else {
                "xtable"@
            }
            &&& c.service_instance_id == if env.service_instance_id is Some {
                env.service_instance_id->0@
            } else {
                id
            }
            &&& c.environment == if env.environment is Some {
                env.environment->0@
            } else {
                "dev"@
            }
            &&& ratio is Some && (ratio->0 <= 0x3FF0_0000_0000_0000 || ratio->0
                == 0x8000_0000_0000_0000) ==> c.trace_sample_ratio_bits == ratio
            &&& ratio is None || (ratio->0 > 0x3FF0_0000_0000_0000 && ratio->0
                != 0x8000_0000_0000_0000) ==> c.trace_sample_ratio_bits is None
            &&& c.metric_export_interval_secs == if env.metric_export_interval is Some
                && parsed_u64(env.metric_export_interval->0@) is Some {
                parsed_u64(env.metric_export_interval->0@)->0
            } else {
                60
            }
            &&& c.shutdown_flush_timeout_secs == if env.shutdown_flush_timeout is Some
                && parsed_u64(env.shutdown_flush_timeout->0@) is Some {
                parsed_u64(env.shutdown_flush_timeout->0@)->0
            } else {
                10
            }
            &&& !c.enable_per_table_metrics
            &&& c.profile == profile_or_production(
                if env.profile is Some {
                    env.profile->0@
                } else {
                    "production"@
                },
            )
        }),
{
    reveal_strlit("http");
    reveal_strlit("http/protobuf");
    assert(lower_text(Seq::empty()).len() == 0);
    assert("http"@.len() == 4 && "http/protobuf"@.len() == 13);
}

/// A profile goes by its name, in whatever case: `dev`, `staging`, `production`
/// or `prod`, `debug` or `incident`. Any other name is production.
pub proof fn law_profile_goes_by_its_name(t: Seq<char>)
    ensures
        ({
            let name = lower_text(t);
            let p = profile_or_production(t);
            &&& p == Profile::Dev <==> name == "dev"@
            &&& p == Profile::Staging <==> name == "staging"@
            &&& p == Profile::Debug <==> name == "debug"@ || name == "incident"@
            &&& p == Profile::Production <==> !(name == "dev"@ || name == "staging"@ || name
                == "debug"@ || name == "incident"@)
            &&& named_profile(t) is None <==> !(t == "dev"@ || t == "staging"@ || t
                == "production"@ || t == "prod"@ || t == "debug"@ || t == "incident"@)
        }),
{
    reveal_strlit("dev");
    reveal_strlit("staging");
    reveal_strlit("production");
    reveal_strlit("prod");
    reveal_strlit("debug");
    reveal_strlit("incident");
    let name = lower_text(t);
    assert("dev"@.len() == 3 && "staging"@.len() == 7 && "production"@.len() == 10);
    assert("prod"@.len() == 4 && "debug"@.len() == 5 && "incident"@.len() == 8);
}

/// A file gives the name and the environment where the environment left their
/// defaults, the instance where it names one, the ratio where there was none,
/// the intervals where it changes their defaults, and the switch for metrics
/// per table.
pub proof fn law_file_fills_what_the_environment_left(
    c: TelemetryConfigView,
    toml: ObservabilityConfig,
)
    ensures
        ({
            let m = merged(c, toml);
            &&& c.service_name != "xtable"@ ==> m.service_name == c.service_name
            &&& c.service_name == "xtable"@ ==> m.service_name == toml.service_name@
            &&& c.environment != "dev"@ ==> m.environment == c.environment
            &&& c.environment == "dev"@ ==> m.environment == toml.environment@
            &&& toml.service_instance_id is Some ==> m.service_instance_id
                == toml.service_instance_id->0@
            &&& toml.service_instance_id is None ==> m.service_instance_id
                == c.service_instance_id
            &&& c.trace_sample_ratio_bits is None ==> m.trace_sample_ratio_bits
                == toml.trace_sample_ratio_bits
            &&& toml.metric_export_interval_secs == 60 ==> m.metric_export_interval_secs
                == c.metric_export_interval_secs
            &&& toml.metric_export_interval_secs != 60 ==> m.metric_export_interval_secs
                == toml.metric_export_interval_secs
            &&& toml.shutdown_flush_timeout_secs == 10 ==> m.shutdown_flush_timeout_secs
                == c.shutdown_flush_timeout_secs
            &&& toml.shutdown_flush_timeout_secs != 10 ==> m.shutdown_flush_timeout_secs
                == toml.shutdown_flush_timeout_secs
            &&& m.enable_per_table_metrics == toml.enable_per_table_metrics
        }),
{
}

/// A file alone gives its settings as they are, with the profile by its name.
pub proof fn law_file_settings(toml: ObservabilityConfig, id: Seq<char>)
    ensures
        ({
            let c = file_config(toml, id);
            &&& c.endpoint is None
            &&& c.protocol == OtlpProtocol::Grpc
            &&& c.service_name == toml.service_name@
            &&& c.environment == toml.environment@
            &&& c.service_instance_id == if toml.service_instance_id is Some {
                toml.service_instance_id->0@
            } else {
                id
            }
            &&& c.trace_sample_ratio_bits == toml.trace_sample_ratio_bits
            &&& c.metric_export_interval_secs == toml.metric_export_interval_secs
            &&& c.shutdown_flush_timeout_secs == toml.shutdown_flush_timeout_secs
            &&& c.enable_per_table_metrics == toml.enable_per_table_metrics
            &&& c.profile == profile_or_production(toml.profile@)
        }),
{
}

/// The noisier the profile, the shorter its export interval.
pub proof fn law_noisier_profiles_export_more_often(p: Profile)
    ensures
        0 < profile_interval(Profile::Dev) == profile_interval(Profile::Debug) < profile_interval(
            Profile::Staging,
        ) < profile_interval(Profile::Production),
        profile_interval(p) <= 60,
        profile_interval(p) % 10 == 0,
{
}

} // verus!
