use relay::profile::Name;
use relay::qx_record::{decode_qx_rule_record, encode_qx_rule_record};
use relay::sources::{RemoteSourceRefreshInterval, SubscriptionStoreError};
use relay::store::encode_hex;

#[test]
fn qx_rule_record_round_trips() {
    let url = "https://rules.example.invalid/list?token=fixture-secret";
    let content = "DOMAIN-KEYWORD,google,PROXY\n";
    let target = Name::parse("Proxy").unwrap();
    let text = encode_qx_rule_record(
        "qx-rule-feed",
        url,
        &target,
        content,
        RemoteSourceRefreshInterval::Daily,
        7,
    )
    .unwrap();
    assert!(!text.contains("fixture-secret"));
    let decoded = decode_qx_rule_record(&text, "qx-rule-feed").unwrap();
    assert_eq!(decoded.id, "qx-rule-feed");
    assert_eq!(decoded.url_input, url);
    assert_eq!(decoded.target_policy.as_str(), "Proxy");
    assert_eq!(decoded.content, content);
    assert_eq!(decoded.refresh_interval, RemoteSourceRefreshInterval::Daily);
    assert_eq!(decoded.last_successful_update_unix_secs, 7);
}

#[test]
fn qx_rule_record_reads_v1_without_refresh_metadata() {
    let id = "qx-rule-feed";
    let content = "DOMAIN-KEYWORD,google,PROXY\n";
    let legacy = [
        "relay-qx-rule-source-v1".to_owned(),
        format!("id\t{id}"),
        format!(
            "url\t{}",
            encode_hex("https://rules.example.invalid/list?token=fixture-secret")
        ),
        format!("target\t{}", encode_hex("Proxy")),
        format!("content\t{}", encode_hex(content)),
    ]
    .join("\n");
    let loaded = decode_qx_rule_record(&legacy, id).unwrap();
    assert_eq!(loaded.id, id);
    assert_eq!(loaded.content, content);
    assert_eq!(loaded.refresh_interval, RemoteSourceRefreshInterval::Manual);
    assert_eq!(loaded.last_successful_update_unix_secs, 0);
}

#[test]
fn qx_rule_record_rejects_invalid_inputs() {
    let target = Name::parse("Proxy").unwrap();
    let manual = RemoteSourceRefreshInterval::Manual;
    assert_eq!(
        encode_qx_rule_record("source-1", "https://a.invalid/x", &target, "x", manual, 0),
        Err(SubscriptionStoreError::InvalidSource)
    );
    assert_eq!(
        encode_qx_rule_record("qx-rule-1", "http://a.invalid/x", &target, "x", manual, 0),
        Err(SubscriptionStoreError::InvalidSource)
    );
    assert_eq!(
        encode_qx_rule_record("qx-rule-1", "https://a.invalid/x", &target, "", manual, 0),
        Err(SubscriptionStoreError::InvalidSource)
    );
    let huge = "a".repeat(1024 * 1024 + 1);
    assert_eq!(
        encode_qx_rule_record("qx-rule-1", "https://a.invalid/x", &target, &huge, manual, 0),
        Err(SubscriptionStoreError::InvalidSource)
    );
    for corrupt in [
        "",
        "https://rules.example.invalid/list",
        "relay-qx-rule-source-v1\nid\tqx-rule-1",
        "relay-qx-rule-source-v1\nid\tqx-rule-1\nid\tqx-rule-1",
    ] {
        assert_eq!(
            decode_qx_rule_record(corrupt, "qx-rule-1").err(),
            Some(SubscriptionStoreError::StoredSourceUnavailable)
        );
    }
}
