use relay::profile::{
    HealthCheck, LogLevel, Name, PolicyGroup, PolicyGroupKind, PolicyRef, Profile, ProxyProvider,
    Rule, SecretUrl,
};
use relay::render::render_mihomo_yaml;

fn fixture_secret() -> SecretUrl {
    SecretUrl::parse_https("https://subscription.example.invalid/client?token=fixture-secret")
        .expect("fixture url is valid")
}

#[test]
fn secret_url_is_redacted_in_debug_and_errors() {
    let secret = fixture_secret();

    assert_eq!(format!("{secret:?}"), "SecretUrl(<redacted>)");
    assert!(!format!("{secret:?}").contains("fixture-secret"));

    let invalid = SecretUrl::parse_https("http://subscription.example.invalid/token");
    let message = invalid.expect_err("http must be rejected").message();
    assert!(!message.contains("subscription"));
    assert!(!message.contains("token"));
}

#[test]
fn subscription_url_accepts_http_and_https_without_exposing_values() {
    let http = SecretUrl::parse_subscription(
        "http://subscription.example.invalid/client?token=fixture-secret",
    )
    .expect("plain HTTP providers are supported by Mihomo");
    let https = SecretUrl::parse_subscription(
        "https://subscription.example.invalid/client?token=fixture-secret",
    )
    .expect("HTTPS providers are supported by Mihomo");

    assert_eq!(format!("{http:?}"), "SecretUrl(<redacted>)");
    assert_eq!(format!("{https:?}"), "SecretUrl(<redacted>)");
    assert!(!http.is_https());
    assert!(https.is_https());
    assert!(SecretUrl::parse_subscription("vless://not-a-provider").is_err());
}

#[test]
fn subscription_preview_profile_avoids_geodata_and_health_check_downloads() {
    let subscription = SecretUrl::parse_subscription(
        "https://subscription.example.invalid/client?token=fixture-secret",
    )
    .expect("fixture subscription is valid");
    let profile = Profile::subscription_preview(subscription, 17_891)
        .expect("preview profile should be valid");
    let yaml = render_mihomo_yaml(&profile).expect("preview profile should render");

    assert!(yaml.contains("name: \"Preview\""));
    assert!(yaml.contains("- \"MATCH,Preview\""));
    assert!(yaml.contains("enable: false"));
    assert!(!yaml.contains("GEOIP"));
    assert!(!yaml.contains("url-test"));
}

#[test]
fn qx_default_renders_ordered_minimal_mihomo_yaml() {
    let profile = Profile::qx_default(fixture_secret()).expect("default profile is valid");
    let yaml = render_mihomo_yaml(&profile).expect("default profile renders");

    assert!(yaml.contains("mode: \"rule\""));
    assert!(yaml.contains("allow-lan: false"));
    assert!(yaml.contains("bind-address: \"127.0.0.1\""));
    assert!(yaml.contains("mixed-port: 7890"));
    assert!(yaml.contains("log-level: \"warning\""));
    assert!(yaml.contains("store-selected: true"));
    assert!(yaml.contains("proxy-providers:"));
    assert!(
        yaml.contains("url: \"https://subscription.example.invalid/client?token=fixture-secret\"")
    );
    assert!(yaml.contains("type: \"select\""));
    assert!(yaml.contains("type: \"url-test\""));
    assert!(yaml.contains("- \"GEOIP,CN,DIRECT,no-resolve\""));
    assert!(yaml.contains("- \"MATCH,Proxy\""));
    assert!(
        yaml.find("proxy-providers:").expect("providers section")
            < yaml.find("proxy-groups:").expect("groups section")
    );
    assert!(yaml.find("- \"GEOIP,CN,DIRECT,no-resolve\"") < yaml.find("- \"MATCH,Proxy\""));
}

#[test]
fn renderer_escapes_double_quoted_yaml_scalars() {
    let profile = Profile {
        mixed_port: 7891,
        log_level: LogLevel::Silent,
        store_selected: true,
        providers: vec![ProxyProvider {
            name: Name::parse("subscription").expect("valid name"),
            url: fixture_secret(),
            interval_secs: 86_400,
            path: "providers/subscription.yaml".to_owned(),
            health_check: HealthCheck {
                enabled: true,
                interval_secs: 600,
                url: "https://www.gstatic.com/generate_204?x=\"slash\\path".to_owned(),
            },
        }],
        groups: vec![PolicyGroup {
            name: Name::parse("Proxy").expect("valid group"),
            kind: PolicyGroupKind::Select {
                proxies: vec![PolicyRef::Direct],
                use_providers: vec![Name::parse("subscription").expect("valid provider")],
            },
        }],
        rules: vec![Rule::Match {
            policy: PolicyRef::Group(Name::parse("Proxy").expect("valid group")),
        }],
    };

    let yaml = render_mihomo_yaml(&profile).expect("profile renders");

    assert!(yaml.contains("log-level: \"silent\""));
    assert!(yaml.contains("url: \"https://www.gstatic.com/generate_204?x=\\\"slash\\\\path\""));
}

#[test]
fn validation_rejects_invalid_names_duplicates_dangling_refs_and_missing_match() {
    assert!(Name::parse("bad,name").is_err());
    assert!(Name::parse("bad\u{7f}name").is_err());

    let provider_name = Name::parse("subscription").expect("valid provider");
    let group_name = Name::parse("Proxy").expect("valid group");
    let duplicate_groups = Profile {
        mixed_port: 7890,
        log_level: LogLevel::Warning,
        store_selected: true,
        providers: vec![ProxyProvider {
            name: provider_name.clone(),
            url: fixture_secret(),
            interval_secs: 86_400,
            path: "providers/subscription.yaml".to_owned(),
            health_check: HealthCheck {
                enabled: true,
                interval_secs: 600,
                url: "https://www.gstatic.com/generate_204".to_owned(),
            },
        }],
        groups: vec![
            PolicyGroup {
                name: group_name.clone(),
                kind: PolicyGroupKind::Select {
                    proxies: vec![PolicyRef::Group(
                        Name::parse("Missing").expect("valid group"),
                    )],
                    use_providers: vec![provider_name.clone()],
                },
            },
            PolicyGroup {
                name: group_name.clone(),
                kind: PolicyGroupKind::Select {
                    proxies: vec![PolicyRef::Direct],
                    use_providers: vec![provider_name],
                },
            },
        ],
        rules: vec![Rule::DomainSuffix {
            value: "example.com".to_owned(),
            policy: PolicyRef::Direct,
        }],
    };

    assert!(duplicate_groups.validate().is_err());

    let message = duplicate_groups
        .validate()
        .expect_err("invalid profile")
        .message();
    assert!(!message.contains("fixture-secret"));

    let mut missing_match = Profile::qx_default(fixture_secret()).expect("default profile");
    missing_match.rules.pop();
    assert!(missing_match.validate().is_err());

    let mut control_character = Profile::qx_default(fixture_secret()).expect("default profile");
    control_character.providers[0].health_check.url.push('\t');
    assert!(control_character.validate().is_err());
}
