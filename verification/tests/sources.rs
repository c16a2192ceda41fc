use relay::profile::{Name, PolicyRef, Profile, Rule, SecretUrl};
use relay::sources::RemoteSourceRefreshInterval as Interval;
use relay::sources::{
    apply_imported_rules, escape_regex,
    qx_rule_target_policy, ControllerState, RemoteSourceRefreshInterval, RuntimeProfileSource,
    SubscriptionPreviewError, SubscriptionStoreError,
};

#[test]
fn remote_source_refresh_intervals_cycle_and_respect_last_success() {
    assert_eq!(Interval::Manual.next(), Interval::Hourly);
    assert_eq!(Interval::Hourly.next(), Interval::SixHours);
    assert_eq!(Interval::SixHours.next(), Interval::TwelveHours);
    assert_eq!(Interval::TwelveHours.next(), Interval::Daily);
    assert_eq!(Interval::Daily.next(), Interval::Manual);

    assert!(!Interval::Manual.is_due(0, u64::MAX));
    assert!(Interval::Hourly.is_due(0, 1));
    assert!(!Interval::Hourly.is_due(10_000, 13_599));
    assert!(Interval::Hourly.is_due(10_000, 13_600));
    assert!(!Interval::Daily.is_due(100_000, 99_000));
}

#[test]
fn runtime_profile_source_exposes_only_safe_copy() {
    assert_eq!(
        RuntimeProfileSource::PrivateSubscription.label(),
        "私有 HTTPS 订阅"
    );
    assert!(RuntimeProfileSource::PrivateSubscription
        .detail()
        .contains("链接已隐藏"));
    assert!(!RuntimeProfileSource::PrivateSubscription
        .detail()
        .contains("token"));
}

#[test]
fn interval_keys_round_trip() {
    for interval in [
        Interval::Manual,
        Interval::Hourly,
        Interval::SixHours,
        Interval::TwelveHours,
        Interval::Daily,
    ] {
        assert_eq!(Interval::parse_key(interval.key()), Some(interval));
    }
    assert_eq!(Interval::parse_key("2h"), None);
    assert_eq!(Interval::default(), Interval::Manual);
    assert_eq!(Interval::SixHours.interval_secs(), Some(21_600));
    assert_eq!(Interval::Manual.interval_secs(), None);
}

#[test]
fn controller_endpoint_is_hidden_only_in_the_demo() {
    assert_eq!(ControllerState::Demo.endpoint(), None);
    let state = ControllerState::Failed {
        endpoint: "http://127.0.0.1:9090".to_owned(),
        message: "down".to_owned(),
    };
    assert_eq!(state.endpoint(), Some("http://127.0.0.1:9090"));
}

#[test]
fn qx_rules_route_to_builtin_or_group_policies() {
    assert_eq!(
        qx_rule_target_policy(&Name::parse("DIRECT").unwrap()),
        PolicyRef::Direct
    );
    assert_eq!(
        qx_rule_target_policy(&Name::parse("REJECT").unwrap()),
        PolicyRef::Reject
    );
    assert_eq!(
        qx_rule_target_policy(&Name::parse("Proxy").unwrap()),
        PolicyRef::Group(Name::parse("Proxy").unwrap())
    );
}

#[test]
fn store_and_preview_errors_never_quote_sources() {
    assert_eq!(
        SubscriptionStoreError::InvalidSource.message(),
        "订阅地址无效，未执行导入"
    );
    assert_eq!(
        SubscriptionPreviewError::EmptyProvider.message(),
        "订阅可以访问，但没有解析出任何代理节点"
    );
}

#[test]
fn imported_rules_go_before_the_terminal_rules() {
    let url = SecretUrl::parse_https("https://sub.example.invalid/feed").unwrap();
    let mut profile = Profile::qx_default(url).unwrap();
    let before = profile.rules.len();
    let imported = vec![Rule::Domain {
        value: "example.com".to_owned(),
        policy: PolicyRef::Direct,
    }];
    assert_eq!(apply_imported_rules(&mut profile, imported), Ok(()));
    assert_eq!(profile.rules.len(), before + 1);
    assert!(matches!(profile.rules[before - 1], Rule::GeoIp { .. }));
    assert!(matches!(profile.rules[before - 2], Rule::Domain { .. }));
    let unchanged = profile.clone();
    assert_eq!(apply_imported_rules(&mut profile, Vec::new()), Ok(()));
    assert_eq!(profile, unchanged);
}

#[test]
fn node_names_are_escaped_for_regular_expressions() {
    assert_eq!(escape_regex("HK 01"), "HK 01");
    assert_eq!(escape_regex("a.b(c)*"), "a\\.b\\(c\\)\\*");
    assert_eq!(escape_regex("[x]|{y}^$+?\\"), "\\[x\\]\\|\\{y\\}\\^\\$\\+\\?\\\\");
}
