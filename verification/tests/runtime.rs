use relay::runtime::{
    is_selector_proxy_type, mixed_port_setting, next_reconnect_attempt, private_subscription_value,
    reconnect_delay_ms, sanitize_kernel_log, sanitize_log_field, select_runtime_input,
    stream_phase, unix_socket_path, ControllerEndpointError, RuntimeInput,
};

#[test]
fn kernel_log_sanitizer_redacts_urls_and_bounds_dynamic_payloads() {
    let input = format!(
        "provider https://example.invalid/client?token=fixture-secret failed; node vless://uuid@host:443 {}",
        "x".repeat(3_000)
    );
    let sanitized = sanitize_kernel_log(&input);

    assert!(sanitized.contains("<redacted-url>"));
    assert!(!sanitized.contains("fixture-secret"));
    assert!(!sanitized.contains("vless://"));
    assert!(sanitized.chars().count() <= 2_048);

    let uppercase =
        sanitize_kernel_log("provider HTTPS://example.invalid/path?token=uppercase-secret failed");
    assert_eq!(
        uppercase, "provider <redacted-url> failed",
        "URI schemes are case-insensitive"
    );
}

#[test]
fn selects_external_existing_and_subscription_runtime_inputs() -> Result<(), String> {
    assert_eq!(
        select_runtime_input::<String>(None, None, None)?,
        RuntimeInput::External
    );
    assert_eq!(
        select_runtime_input(
            Some(String::from("mihomo")),
            Some(String::from("config.yaml")),
            None,
        )?,
        RuntimeInput::ExistingConfig {
            binary: String::from("mihomo"),
            config_file: String::from("config.yaml"),
        }
    );
    assert_eq!(
        select_runtime_input(
            Some(String::from("mihomo")),
            None,
            Some(String::from("relay.subscription.secret")),
        )?,
        RuntimeInput::SubscriptionFile {
            binary: String::from("mihomo"),
            subscription_file: String::from("relay.subscription.secret"),
        }
    );
    assert!(select_runtime_input(
        Some(String::from("mihomo")),
        Some(String::from("config.yaml")),
        Some(String::from("relay.subscription.secret")),
    )
    .is_err());
    assert!(select_runtime_input(Some(String::from("mihomo")), None, None).is_err());
    assert!(select_runtime_input(
        None,
        None,
        Some(String::from("relay.subscription.secret")),
    )
    .is_err());
    Ok(())
}

#[test]
fn parses_absolute_unix_controller_endpoint() {
    let path = unix_socket_path("unix:///tmp/verge/mihomo.sock")
        .unwrap()
        .expect("expected a Unix socket path");
    assert_eq!(path, "/tmp/verge/mihomo.sock");
    assert!(unix_socket_path("http://127.0.0.1:9090").unwrap().is_none());
}

#[test]
fn rejects_relative_unix_controller_endpoint() {
    assert!(unix_socket_path("unix://relative.sock").is_err());
    assert!(unix_socket_path("unix://").is_err());
}

#[test]
fn relative_socket_error_names_the_rule() {
    assert_eq!(
        unix_socket_path("unix://relative.sock"),
        Err(ControllerEndpointError::RelativeSocketPath)
    );
    assert_eq!(
        ControllerEndpointError::RelativeSocketPath.message(),
        "Unix controller socket path must be absolute"
    );
}

#[test]
fn runtime_input_errors_name_the_conflicting_settings() {
    assert_eq!(
        select_runtime_input(Some("mihomo"), Some("config.yaml"), Some("secret")),
        Err("RELAY_MIHOMO_CONFIG 与 RELAY_MIHOMO_SUBSCRIPTION_FILE 不能同时设置".to_owned())
    );
    assert_eq!(
        select_runtime_input(None, Some("config.yaml"), None),
        Err(
            "RELAY_MIHOMO_BINARY 必须与 RELAY_MIHOMO_CONFIG 或 RELAY_MIHOMO_SUBSCRIPTION_FILE 之一同时设置"
                .to_owned()
        )
    );
}

#[test]
fn kernel_log_redaction_stops_at_white_space_and_quotes() {
    assert_eq!(
        sanitize_kernel_log("a http://x/y b 'vless://k@h:1' c"),
        "a <redacted-url> b '<redacted-url>' c"
    );
    assert_eq!(sanitize_kernel_log("line\none\ttab"), "line one tab");
    assert_eq!(sanitize_kernel_log("HtTp://x"), "<redacted-url>");
    assert_eq!(sanitize_kernel_log(""), "");
}

#[test]
fn kernel_log_is_cut_to_its_bound_before_redaction() {
    let long = "y".repeat(5_000);
    assert_eq!(sanitize_kernel_log(&long).chars().count(), 2_048);
}

#[test]
fn log_fields_drop_control_characters_and_stay_short() {
    assert_eq!(sanitize_log_field("in\u{1b}fo\n", 16), "info");
    assert_eq!(sanitize_log_field("warning-level-text", 4), "warn");
    assert_eq!(sanitize_log_field("", 4), "");
}

#[test]
fn stream_phase_counts_reconnections() {
    assert_eq!(stream_phase(0), "正在建立实时流");
    assert_eq!(stream_phase(3), "正在重连 · 第 3 次");
    assert_eq!(stream_phase(12), "正在重连 · 第 12 次");
}

#[test]
fn reconnect_delay_doubles_then_caps() {
    assert_eq!(reconnect_delay_ms(0), 250);
    assert_eq!(reconnect_delay_ms(1), 500);
    assert_eq!(reconnect_delay_ms(2), 1_000);
    assert_eq!(reconnect_delay_ms(3), 2_000);
    assert_eq!(reconnect_delay_ms(4), 4_000);
    assert_eq!(reconnect_delay_ms(5), 5_000);
    assert_eq!(reconnect_delay_ms(usize::MAX), 5_000);
    assert_eq!(next_reconnect_attempt(4, true), 0);
    assert_eq!(next_reconnect_attempt(4, false), 5);
    assert_eq!(next_reconnect_attempt(usize::MAX, false), usize::MAX);
}

#[test]
fn selector_type_ignores_ascii_case() {
    assert!(is_selector_proxy_type("Selector"));
    assert!(is_selector_proxy_type("selector"));
    assert!(!is_selector_proxy_type("URLTest"));
}

#[test]
fn mixed_port_defaults_and_rejects_zero() {
    assert_eq!(mixed_port_setting(None), Ok(17_890));
    assert_eq!(mixed_port_setting(Some("7890")), Ok(7_890));
    assert_eq!(mixed_port_setting(Some("+80")), Ok(80));
    let message = "RELAY_MIHOMO_MIXED_PORT 必须是 1 到 65535 的端口".to_owned();
    assert_eq!(mixed_port_setting(Some("0")), Err(message.clone()));
    assert_eq!(mixed_port_setting(Some("65536")), Err(message.clone()));
    assert_eq!(mixed_port_setting(Some("port")), Err(message));
}

#[test]
fn private_subscription_file_holds_one_https_line() {
    let secret = private_subscription_value(
        "https://subscription.example.invalid/client?token=fixture-secret\n",
    )
    .unwrap();
    assert_eq!(format!("{secret:?}"), "SecretUrl(<redacted>)");

    let message =
        private_subscription_value("http://subscription.example.invalid/fixture-secret")
            .expect_err("http must fail");
    assert!(!message.contains("fixture-secret"));
    assert!(!message.contains("subscription.example.invalid"));
    assert_eq!(message, "私有订阅文件必须只包含一个有效 HTTPS URL");

    assert_eq!(
        private_subscription_value("https://a.invalid/x\nhttps://b.invalid/y").unwrap_err(),
        "私有订阅文件必须只包含一行 HTTPS URL"
    );
    assert_eq!(
        private_subscription_value(" https://a.invalid/x").unwrap_err(),
        "私有订阅文件必须只包含一行 HTTPS URL"
    );
    assert_eq!(
        private_subscription_value("\r\n").unwrap_err(),
        "私有订阅文件必须只包含一行 HTTPS URL"
    );
    let too_long = format!("https://a.invalid/{}", "a".repeat(16 * 1024));
    assert_eq!(
        private_subscription_value(&too_long).unwrap_err(),
        "私有订阅文件超过 16 KiB 限制"
    );
}
