use relay::profile::{safe_relative_path, Profile, ProfileError, SecretUrl, WriteError};
use relay::render::{quoted, render_mihomo_yaml};

#[test]
fn write_errors_carry_the_io_error_text() {
    let error = WriteError::Io(std::io::Error::new(std::io::ErrorKind::Other, "disk full"));
    assert_eq!(error.message(), "private profile write failed: disk full");
    assert_eq!(
        WriteError::FinalPathSymlink.message(),
        "generated profile path cannot be a symlink"
    );
}

#[test]
fn quoted_scalars_escape_quotes_backslashes_and_controls() {
    assert_eq!(quoted("plain"), "\"plain\"");
    assert_eq!(quoted("a\"b\\c"), "\"a\\\"b\\\\c\"");
    assert_eq!(quoted("line\nbreak\ttab"), "\"line\\nbreak\\ttab\"");
    assert_eq!(quoted("\u{1}\u{7f}"), "\"\\u0001\\u007F\"");
    assert_eq!(quoted("\u{8}\u{c}\r"), "\"\\b\\f\\r\"");
}

#[test]
fn rendering_refuses_an_invalid_profile() {
    let url = SecretUrl::parse_https("https://sub.example.invalid/feed").unwrap();
    let mut profile = Profile::qx_default(url).unwrap();
    profile.mixed_port = 0;
    assert_eq!(
        render_mihomo_yaml(&profile),
        Err(ProfileError::InvalidValue("mixed port"))
    );
    assert_eq!(
        ProfileError::InvalidValue("mixed port").message(),
        "profile mixed port is invalid"
    );
}

#[test]
fn provider_paths_follow_unix_path_components() {
    assert!(safe_relative_path("providers/subscription.yaml"));
    assert!(safe_relative_path("./providers/subscription.yaml"));
    assert!(safe_relative_path("providers/..sub.yaml"));
    assert!(!safe_relative_path(""));
    assert!(!safe_relative_path("../secret.yaml"));
    assert!(!safe_relative_path("providers/../../secret.yaml"));
    assert!(!safe_relative_path("providers/.."));
    assert!(!safe_relative_path("/etc/passwd"));
    assert!(!safe_relative_path("providers/sub\nfile.yaml"));
    assert!(safe_relative_path("proxy_providers\\sub.yaml"));
    assert!(safe_relative_path("..\\secret.yaml"));
    assert!(safe_relative_path("C:x"));
}
