use relay::diagnostics::{
    format_line, parse_line, sanitize_detail, sanitize_fragment, Diagnostics, LogLevel, UiEvent,
    UiLogEntry,
};

#[test]
fn durable_line_round_trips_with_operation_and_detail() {
    let entry = UiLogEntry {
        sequence: 7,
        timestamp_ms: 42,
        level: LogLevel::Info.as_str().to_owned(),
        operation_id: Some(3),
        event: "proxy.mode.requested".to_owned(),
        detail: Some("from=off to=tun".to_owned()),
    };

    assert_eq!(parse_line(&format_line(&entry)), Some(entry));
}

#[test]
fn dynamic_details_redact_urls_tokens_and_line_breaks() {
    let detail = sanitize_detail(
        "source=https://example.invalid/a?token=secret\nnode=vless://uuid@example.invalid",
    );

    assert!(!detail.contains("secret"));
    assert!(!detail.contains("example.invalid"));
    assert!(!detail.contains('\n'));
    assert!(detail.contains("<redacted-url>"));
}

#[test]
fn ui_trace_keeps_a_safe_in_memory_log_even_when_stderr_trace_is_disabled() {
    let mut log = Diagnostics::new();
    log.trace_ui(UiEvent::WorkspaceLogsOpened, 1_000);
    let logs = log.recent_ui_logs();
    let entry = logs.last().expect("the event should enter the ring buffer");

    assert_eq!(entry.event, "workspace.logs.opened");
    assert_eq!(entry.level, "DEBUG");
    assert!(!entry.event.contains("token"));
    assert!(!entry.event.contains("http"));
}

#[test]
fn durable_line_without_operation_or_detail_uses_dashes() {
    let entry = UiLogEntry {
        sequence: 18_446_744_073_709_551_615,
        timestamp_ms: 1_700_000_000_000,
        level: "WARN".to_owned(),
        operation_id: None,
        event: "helper.prepare.waiting".to_owned(),
        detail: None,
    };
    let line = format_line(&entry);
    assert_eq!(line, "1700000000000\t18446744073709551615\tWARN\t-\thelper.prepare.waiting\t-");
    assert_eq!(parse_line(&line), Some(entry));
}

#[test]
fn malformed_durable_lines_are_skipped() {
    assert_eq!(parse_line(""), None);
    assert_eq!(parse_line("1\t2\tINFO\t-\tevent"), None);
    assert_eq!(parse_line("x\t2\tINFO\t-\tevent\t-"), None);
    assert_eq!(parse_line("1\t2\tINFO\tseven\tevent\t-"), None);
    assert_eq!(parse_line("1\t18446744073709551616\tINFO\t-\tevent\t-"), None);
    let tabbed = parse_line("+5\t2\tINFO\t-\tevent\tdetail\twith tab").expect("detail keeps tabs");
    assert_eq!(tabbed.timestamp_ms, 5);
    assert_eq!(tabbed.detail.as_deref(), Some("detail\twith tab"));
}

#[test]
fn details_collapse_whitespace_and_redact_tokens() {
    assert_eq!(sanitize_detail("  a\t\tb\r\nc  "), "a b c");
    assert_eq!(sanitize_detail("id=1 TOKEN=abc"), "id=1 <redacted-token>");
    assert_eq!(sanitize_detail("HTTP://x"), "<redacted-url>");
    let long = "y".repeat(900);
    let bounded = sanitize_detail(&long);
    assert_eq!(bounded.chars().count(), 801);
    assert!(bounded.ends_with('\u{2026}'));
}

#[test]
fn fragments_keep_only_safe_characters() {
    assert_eq!(sanitize_fragment("proxy mode/failed?token=1"), "proxymodefailedtoken1");
    assert_eq!(sanitize_fragment("a.b_c-d"), "a.b_c-d");
    assert_eq!(sanitize_fragment(&"z".repeat(200)).len(), 120);
}

#[test]
fn ring_buffer_keeps_the_newest_entries() {
    let mut log = Diagnostics::new();
    for index in 0..600u128 {
        log.record_event(LogLevel::Info, "tick", "detail", index);
    }
    let logs = log.recent_ui_logs();
    assert_eq!(logs.len(), 512);
    assert_eq!(logs[0].sequence, 89);
    assert_eq!(logs[511].sequence, 600);
}

#[test]
fn operations_are_numbered_and_restored_from_the_durable_log() {
    let mut log = Diagnostics::new();
    let (first, entry) = log.begin_operation("proxy.mode.requested", "from=off", 10);
    assert_eq!(first, 1);
    assert_eq!(entry.operation_id, Some(1));
    let step = log.record_operation(first, LogLevel::Error, "proxy.mode.failed", "timeout", 11);
    assert_eq!(step.sequence, 2);

    let mut contents = String::new();
    for entry in log.recent_ui_logs() {
        contents.push_str(&format_line(&entry));
        contents.push('\n');
    }
    contents.push_str("garbage line\n");
    let mut restored = Diagnostics::new();
    restored.restore(&contents);
    assert_eq!(restored.recent_ui_logs(), log.recent_ui_logs());
    let (next, _) = restored.begin_operation("next", "", 12);
    assert_eq!(next, 2);
    assert_eq!(restored.recent_ui_logs().last().map(|entry| entry.sequence), Some(3));
}
