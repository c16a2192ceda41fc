use relay::helper::{
    helper_status_detail, is_current_status, parse_helper_status, parse_pid, HelperError,
    HelperStatus,
};

#[test]
fn parses_typed_helper_pid_response() {
    assert_eq!(parse_pid(b"started 42\n", "started").unwrap(), 42);
    assert!(parse_pid(b"running 0\n", "running").is_err());
    assert!(parse_pid(b"started 42 extra\n", "started").is_err());
    assert!(parse_pid(b"shell 42\n", "started").is_err());
}

#[test]
fn rejects_outdated_helper_status_and_accepts_current_status() {
    assert!(!is_current_status(b"stopped\n"));
    assert!(!is_current_status(b"running 42\n"));
    assert!(!is_current_status(b"stopped v2\n"));
    assert!(is_current_status(b"stopped v3 not-started\n"));
    assert!(is_current_status(b"running 42 v3\n"));
    assert_eq!(
        parse_helper_status(b"running 42 v3\n").unwrap(),
        HelperStatus::Running { pid: 42 }
    );
    assert_eq!(
        parse_helper_status(b"stopped v3 unexpected-signal-9\n").unwrap(),
        HelperStatus::Stopped {
            reason: "unexpected-signal-9".to_owned()
        }
    );
    assert!(parse_helper_status(b"stopped v3 bad reason\n").is_err());
}

#[test]
fn pid_errors_distinguish_the_prefix_from_the_number() {
    assert_eq!(parse_pid(b"shell 42", "started"), Err(HelperError::UnexpectedResponse));
    assert_eq!(parse_pid(b"", "started"), Err(HelperError::UnexpectedResponse));
    assert_eq!(parse_pid(b"started", "started"), Err(HelperError::InvalidProcessIdentifier));
    assert_eq!(
        parse_pid(b"started 4294967296", "started"),
        Err(HelperError::InvalidProcessIdentifier)
    );
    assert_eq!(parse_pid(b"  started\t7 \n", "started"), Ok(7));
}

#[test]
fn status_detail_names_only_the_state() {
    assert_eq!(helper_status_detail(b"running 42 v3\n"), "state=running pid=42");
    assert_eq!(helper_status_detail(b"stopped v3 not-started"), "state=stopped reason=not-started");
    assert_eq!(helper_status_detail(b"stopped v3 /etc/passwd"), "state=invalid_response");
    assert_eq!(helper_status_detail(b"\xff\xfe"), "state=invalid_response");
}
