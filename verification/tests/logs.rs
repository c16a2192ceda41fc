use relay::diagnostics::UiLogEntry;
use relay::logs::{
    any_text_holds, connection_matches_query, format_log_time, kernel_log_matches_query, logs_summary, ui_log_matches_query,
    ConnectionSearchText, KernelLogEntry,
};
use relay::system_proxy::Language;

#[test]
fn log_time_is_bounded_and_readable() {
    assert_eq!(format_log_time(3_723_000), "01:02:03 UTC");
}

#[test]
fn log_time_wraps_at_midnight() {
    assert_eq!(format_log_time(0), "00:00:00 UTC");
    assert_eq!(format_log_time(86_399_999), "23:59:59 UTC");
    assert_eq!(format_log_time(86_400_000 + 61_000), "00:01:01 UTC");
}

#[test]
fn log_summary_uses_selected_language() {
    assert_eq!(
        logs_summary(Language::English, 2, "connected", 1),
        "2 entries · persistent event chain with OP IDs · Mihomo connected · dropped 1 overloaded logs · URLs/tokens redacted"
    );
    assert_eq!(
        logs_summary(Language::SimplifiedChinese, 2, "已连接", 1),
        "2 条 · 操作链与 OP 编号已持久化 · Mihomo 已连接 · 已丢弃 1 条过载日志 · URL/令牌已脱敏"
    );
}

#[test]
fn log_filter_matches_event_detail_level_and_operation_number() {
    let entry = UiLogEntry {
        sequence: 12,
        timestamp_ms: 0,
        level: "ERROR".to_owned(),
        operation_id: Some(5),
        event: "proxy.mode.failed".to_owned(),
        detail: Some("helper timed out".to_owned()),
    };

    for query in ["proxy", "ERROR", "timed out", "op-0005", "12", ""] {
        assert!(ui_log_matches_query(&entry, query));
    }
    assert!(!ui_log_matches_query(&entry, "routing"));
}

#[test]
fn log_filter_ignores_case_and_absent_fields() {
    let entry = UiLogEntry {
        sequence: 3,
        timestamp_ms: 0,
        level: "info".to_owned(),
        operation_id: None,
        event: "Proxy.Mode".to_owned(),
        detail: None,
    };
    assert!(ui_log_matches_query(&entry, "PROXY.mode"));
    assert!(ui_log_matches_query(&entry, "INFO"));
    assert!(!ui_log_matches_query(&entry, "op-"));
    assert!(!ui_log_matches_query(&entry, "-"));
    assert!(ui_log_matches_query(&entry, "3"));
}

#[test]
fn kernel_log_filter_reads_level_payload_and_label() {
    let entry = KernelLogEntry {
        sequence: 7,
        level: "WARNING".to_owned(),
        payload: "DNS Timeout for Example.Invalid".to_owned(),
        timestamp_ms: 0,
    };
    assert!(kernel_log_matches_query(&entry, ""));
    assert!(kernel_log_matches_query(&entry, "warning"));
    assert!(kernel_log_matches_query(&entry, "example.invalid"));
    assert!(kernel_log_matches_query(&entry, "k#0007"));
    assert!(kernel_log_matches_query(&entry, "K#0007"));
    assert!(!kernel_log_matches_query(&entry, "k#7"));
    assert!(!kernel_log_matches_query(&entry, "error"));
    let long = KernelLogEntry { sequence: 123_456, ..entry };
    assert!(kernel_log_matches_query(&long, "k#123456"));
}

#[test]
fn any_text_holds_looks_in_every_text() {
    let texts = vec!["alpha".to_owned(), "beta".to_owned()];
    assert!(any_text_holds(&texts, "et"));
    assert!(any_text_holds(&texts, ""));
    assert!(!any_text_holds(&texts, "gamma"));
    assert!(!any_text_holds(&Vec::new(), ""));
}

#[test]
fn connection_filter_reads_fields_and_chain() {
    let connection = ConnectionSearchText {
        host: Some("Video.Example.Invalid".to_owned()),
        destination_ip: None,
        process: Some("Browser".to_owned()),
        process_path: None,
        rule: Some("DOMAIN-SUFFIX".to_owned()),
        rule_payload: Some("example.invalid".to_owned()),
        chains: vec!["Hong Kong".to_owned(), "Proxy".to_owned()],
    };
    for query in ["", "video.example", "EXAMPLE", "browser", "domain-suffix", "hong kong", "PROXY"] {
        assert!(connection_matches_query(&connection, query));
    }
    assert!(!connection_matches_query(&connection, "telegram"));
    assert!(!connection_matches_query(&connection, "10.0.0.1"));
}

#[test]
fn activity_filter_matches_target_process_rule_and_route() {
    let connection = ConnectionSearchText {
        host: Some("www.example.com".to_owned()),
        destination_ip: None,
        process: Some("Browser".to_owned()),
        process_path: None,
        rule: Some("DomainSuffix".to_owned()),
        rule_payload: Some("example.com".to_owned()),
        chains: vec!["Hong Kong".to_owned(), "Proxy".to_owned()],
    };

    for query in ["EXAMPLE", "browser", "domainsuffix", "hong kong", ""] {
        assert!(connection_matches_query(&connection, query));
    }
    assert!(!connection_matches_query(&connection, "telegram"));
}
