use relay::system_proxy::{Language, ProxyPorts, SystemProxyError};
use relay::tray::relay_icon_rgba;

#[test]
fn proxy_ports_require_at_least_one_listener() {
    let error = ProxyPorts {
        http: None,
        socks: None,
    }
    .usable_with_language(Language::SimplifiedChinese)
    .expect_err("empty ports must fail closed");

    assert!(matches!(error, SystemProxyError::Unavailable(_)));
}

#[test]
fn tray_icon_is_rgba_and_contains_transparency() {
    let icon = relay_icon_rgba();
    assert_eq!(icon.len(), 32 * 32 * 4);
    assert!(icon.iter().skip(3).step_by(4).any(|alpha| *alpha == 0));
    assert!(icon.iter().skip(3).step_by(4).any(|alpha| *alpha == 255));
}
