use relay::system_proxy::{
    add, apply_service, delete, gnome_enable, macos_command_failed, network_services, query,
    read_setting, windows_enable, windows_proxy_server, Language, ProxyPorts, SystemProxyError,
    SystemProxySession,
};

#[test]
fn macos_service_points_open_listeners_at_relay() {
    let both = ProxyPorts {
        http: Some(7890),
        socks: Some(7891),
    };
    assert_eq!(
        apply_service("Wi-Fi", both),
        vec![
            vec!["-setwebproxy", "Wi-Fi", "127.0.0.1", "7890"],
            vec!["-setsecurewebproxy", "Wi-Fi", "127.0.0.1", "7890"],
            vec!["-setsocksfirewallproxy", "Wi-Fi", "127.0.0.1", "7891"],
        ]
    );
    let socks_only = ProxyPorts {
        http: None,
        socks: Some(7891),
    };
    assert_eq!(
        apply_service("Wi-Fi", socks_only),
        vec![
            vec!["-setwebproxystate", "Wi-Fi", "off"],
            vec!["-setsecurewebproxystate", "Wi-Fi", "off"],
            vec!["-setsocksfirewallproxy", "Wi-Fi", "127.0.0.1", "7891"],
        ]
    );
}

#[test]
fn macos_settings_and_services_are_read_from_networksetup_output() {
    let setting = read_setting("Enabled: Yes\nServer: 10.0.0.1\nPort: 8080\nAuthenticated Proxy Enabled: 0\n");
    assert!(setting.enabled);
    assert_eq!(setting.server, "10.0.0.1");
    assert_eq!(setting.port, 8080);
    let broken = read_setting("Enabled: No\nPort: not-a-port\n");
    assert!(!broken.enabled);
    assert_eq!(broken.port, 0);
    assert_eq!(
        network_services(
            "An asterisk (*) denotes that a network service is disabled.\nWi-Fi\n*Bluetooth PAN\n\n  Ethernet  \n"
        ),
        vec!["Wi-Fi", "Ethernet"]
    );
}

#[test]
fn windows_proxy_server_falls_back_to_the_open_listener() {
    assert_eq!(
        windows_proxy_server(ProxyPorts {
            http: Some(7890),
            socks: None
        }),
        "http=127.0.0.1:7890;https=127.0.0.1:7890;socks=127.0.0.1:7890"
    );
    assert_eq!(
        windows_proxy_server(ProxyPorts {
            http: Some(7890),
            socks: Some(7891)
        }),
        "http=127.0.0.1:7890;https=127.0.0.1:7890;socks=127.0.0.1:7891"
    );
    let commands = windows_enable(ProxyPorts {
        http: None,
        socks: Some(1080),
    });
    assert_eq!(commands.len(), 2);
    assert_eq!(commands[1], add("ProxyEnable", "REG_DWORD", "1"));
    assert_eq!(delete("ProxyServer")[0], "delete");
}

#[test]
fn windows_registry_values_are_the_last_word_of_their_line() {
    let output = "\nHKEY_CURRENT_USER\\Software\n    ProxyEnable    REG_DWORD    0x1\n    ProxyServer    REG_SZ    http=127.0.0.1:7890\n";
    assert_eq!(query(output, "ProxyEnable").as_deref(), Some("0x1"));
    assert_eq!(
        query(output, "ProxyServer").as_deref(),
        Some("http=127.0.0.1:7890")
    );
    assert_eq!(query(output, "AutoConfigURL"), None);
}

#[test]
fn gnome_enable_sets_manual_mode_last() {
    let commands = gnome_enable(ProxyPorts {
        http: Some(7890),
        socks: None,
    });
    assert_eq!(
        commands.last().unwrap(),
        &vec!["org.gnome.system.proxy", "mode", "'manual'"]
    );
}

#[test]
fn failed_commands_report_their_exit_code() {
    match macos_command_failed(Language::English, 3) {
        SystemProxyError::CommandFailed(message) => {
            assert_eq!(message, "macOS system proxy command failed with exit code 3")
        }
        other => panic!("unexpected {other:?}"),
    }
    match macos_command_failed(Language::SimplifiedChinese, -1) {
        SystemProxyError::CommandFailed(message) => {
            assert_eq!(message, "macOS 系统代理命令失败（退出码 -1）")
        }
        other => panic!("unexpected {other:?}"),
    }
}

#[test]
fn a_session_applies_once_and_restores_once() {
    let mut session = SystemProxySession::new();
    assert!(!session.applied());
    assert!(!session.plan_disable());
    session.mark_enabled();
    assert!(session.applied());
    assert!(session.plan_disable());
    session.mark_disabled();
    assert!(!session.applied());
}
