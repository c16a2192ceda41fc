use relay::subscription::{
    parse_vless_node, percent_decode, validate_subscription_preview, SourceKind,
    SubscriptionInputError, VlessSource,
};

#[test]
fn recognizes_http_and_https_subscription_sources() {
    let preview = validate_subscription_preview(
        "https://subscription.example.invalid/client?token=fixture-secret",
    )
    .expect("fixture HTTPS subscription should validate");

    assert_eq!(preview.kind, SourceKind::HttpsSubscription);
    assert!(preview.nodes.is_empty());

    let http = validate_subscription_preview(
        "http://subscription.example.invalid/client?token=fixture-secret",
    )
    .expect("Mihomo accepts HTTP proxy providers");
    assert_eq!(http.kind, SourceKind::HttpSubscription);
    assert!(http.nodes.is_empty());
}

#[test]
fn recognizes_vless_share_link_as_a_real_single_node_preview() {
    let preview = validate_subscription_preview(
        "vless://00000000-0000-4000-8000-000000000000@edge.example.invalid:443?security=tls&type=ws#Tokyo%20Edge",
    )
    .expect("valid VLESS share link should be recognized");

    assert_eq!(preview.kind, SourceKind::VlessNode);
    assert_eq!(preview.nodes.len(), 1);
    assert_eq!(preview.nodes[0].name, "Tokyo Edge");
    assert_eq!(preview.nodes[0].protocol, "VLESS");
    assert_eq!(preview.nodes[0].endpoint, "edge.example.invalid:443");
    assert_eq!(preview.nodes[0].detail, "TLS · WebSocket");
    assert!(!format!("{preview:?}").contains("00000000"));
}

#[test]
fn vless_source_keeps_credentials_out_of_debug_output() {
    let source = VlessSource::parse(
        "vless://00000000-0000-4000-8000-000000000000@edge.example.invalid:443?security=tls#Saved",
    )
    .expect("fixture VLESS link should parse");

    assert_eq!(source.preview().name, "Saved");
    assert_eq!(format!("{source:?}"), "VlessSource(<redacted>)");
    assert!(!format!("{source:?}").contains("00000000"));
}

#[test]
fn invalid_source_error_never_contains_the_input() {
    let input = "ftp://subscription.example.invalid/private-token";
    let error = validate_subscription_preview(input).expect_err("FTP must be rejected");

    assert_eq!(error, SubscriptionInputError::UnsupportedSource);
    assert!(!format!("{error:?}").contains(input));
    assert!(!error.message().contains("private-token"));
}

#[test]
fn empty_and_oversized_sources_are_rejected() {
    assert_eq!(
        validate_subscription_preview(""),
        Err(SubscriptionInputError::Empty)
    );
    let long = format!("https://example.invalid/{}", "a".repeat(16_384));
    assert_eq!(
        validate_subscription_preview(&long),
        Err(SubscriptionInputError::TooLong)
    );
    assert_eq!(
        validate_subscription_preview("vless://not-a-uuid@host:443"),
        Err(SubscriptionInputError::InvalidVless)
    );
}

#[test]
fn vless_nodes_cover_ipv6_defaults_and_transports() {
    let node = parse_vless_node(
        "vless://0123ABCD-0000-4000-8000-00000000abcd@[2001:db8::1]:8443?type=GRPC&security=reality",
    )
    .expect("IPv6 server");
    assert_eq!(node.endpoint, "[2001:db8::1]:8443");
    assert_eq!(node.name, "VLESS · 2001:db8::1");
    assert_eq!(node.detail, "REALITY · gRPC");

    let plain = parse_vless_node(
        "vless://00000000-0000-4000-8000-000000000000@host.invalid:80?type=quic#%20",
    )
    .expect("unknown transport");
    assert_eq!(plain.detail, "未声明安全层");
    assert_eq!(plain.name, "VLESS · host.invalid");

    assert!(parse_vless_node("vless://00000000-0000-4000-8000-000000000000@host.invalid:0").is_err());
    assert!(parse_vless_node("vless://00000000-0000-4000-8000-000000000000@:443").is_err());
    assert!(parse_vless_node(" vless://00000000-0000-4000-8000-000000000000@h:1").is_err());
}

#[test]
fn percent_decoding_reads_escapes_and_plus() {
    assert_eq!(percent_decode("Tokyo%20Edge+2").as_deref(), Some("Tokyo Edge 2"));
    assert_eq!(percent_decode("%E9%A6%99%E6%B8%AF").as_deref(), Some("香港"));
    assert_eq!(percent_decode("%ZZ"), None);
    assert_eq!(percent_decode("%4"), None);
    assert_eq!(percent_decode("%FF"), None);
}
