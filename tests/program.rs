use gpu_scan::diagnostics::{report_line, should_report, MessageType, Severity, Source};
use gpu_scan::program::{check_status, log_text, BuildError, BuildStep};

#[test]
fn notifications_are_not_reported() {
    assert!(report_line(7, Source::Api, MessageType::Other, Severity::Notification, "x").is_none());
    assert!(!should_report(Severity::Notification));
    for s in [Severity::High, Severity::Medium, Severity::Low, Severity::Unknown] {
        assert!(should_report(s));
    }
}

#[test]
fn report_line_format() {
    let line = report_line(
        131218,
        Source::ShaderCompiler,
        MessageType::Performance,
        Severity::Medium,
        "slow path",
    );
    assert_eq!(
        line.unwrap(),
        "131218: PERFORMANCE of MEDIUM severity, raised from SHADER COMPILER: slow path"
    );
    let line = report_line(0, Source::Other, MessageType::Error, Severity::High, "");
    assert_eq!(line.unwrap(), "0: ERROR of HIGH severity, raised from UNKNOWN: ");
}

#[test]
fn failed_link_carries_log_text() {
    let log = b"error: missing main\0\0junk".to_vec();
    match check_status(BuildStep::Link, 0, &log) {
        Err(BuildError::Link(t)) => assert_eq!(t, b"error: missing main".to_vec()),
        _ => panic!("expected a link error"),
    }
    match check_status(BuildStep::Compile, 0, &b"bad".to_vec()) {
        Err(BuildError::Compile(t)) => assert_eq!(t, b"bad".to_vec()),
        _ => panic!("expected a compile error"),
    }
    assert!(check_status(BuildStep::Link, 1, &log).is_ok());
}

#[test]
fn log_text_stops_at_first_zero() {
    assert_eq!(log_text(&vec![]), Vec::<u8>::new());
    assert_eq!(log_text(&vec![0, 65]), Vec::<u8>::new());
    assert_eq!(log_text(&vec![65, 66]), vec![65, 66]);
}
