use pscan::cli::{
    alive_hosts, exit_code, run_outcome, scan_config, shows_host, shows_scan, sorted_distinct,
    stage_after_discovery, stage_after_resolution, validate_cli, RunOptions, RunOutcome, RunStage,
};
use pscan::scanner::{HostDiscoveryResult, HostState, ScanResult, Transport, UdpState};
use std::time::Duration;
use pscan::PscanError;

fn options() -> RunOptions {
    RunOptions {
        targets_given: true,
        target_file_given: false,
        concurrency: 500,
        result_buffer: 1024,
        timeout_ms: 800,
        fingerprint_timeout_ms: 1200,
        service_detection: false,
        udp: false,
    }
}

fn rejection(o: RunOptions) -> String {
    match validate_cli(&o) {
        Err(PscanError::InvalidInput(text)) => text,
        other => panic!("unexpected {other:?}"),
    }
}

#[test]
fn accepts_ordinary_options() {
    assert!(validate_cli(&options()).is_ok());
    assert!(validate_cli(&RunOptions { targets_given: false, target_file_given: true, ..options() }).is_ok());
    assert!(validate_cli(&RunOptions { service_detection: true, ..options() }).is_ok());
    assert!(validate_cli(&RunOptions { udp: true, ..options() }).is_ok());
}

#[test]
fn rejects_options_in_order() {
    assert_eq!(
        rejection(RunOptions { targets_given: false, concurrency: 0, ..options() }),
        "provide --target or --target-file"
    );
    assert_eq!(
        rejection(RunOptions { concurrency: 0, result_buffer: 0, ..options() }),
        "concurrency must be greater than zero"
    );
    assert_eq!(
        rejection(RunOptions { result_buffer: 0, ..options() }),
        "result buffer must be greater than zero"
    );
    assert_eq!(
        rejection(RunOptions { fingerprint_timeout_ms: 0, ..options() }),
        "timeouts must be greater than zero"
    );
    assert_eq!(
        rejection(RunOptions { timeout_ms: 0, ..options() }),
        "timeouts must be greater than zero"
    );
    assert_eq!(
        rejection(RunOptions { service_detection: true, udp: true, ..options() }),
        "--service-detection currently applies to TCP only"
    );
}

#[test]
fn outcomes_and_exit_codes() {
    assert_eq!(run_outcome(true, true), RunOutcome::Cancelled);
    assert_eq!(run_outcome(false, true), RunOutcome::ResolutionFailure);
    assert_eq!(run_outcome(false, false), RunOutcome::Completed);
    assert_eq!(exit_code(RunOutcome::Completed), 0);
    assert_eq!(exit_code(RunOutcome::Cancelled), 130);
    assert_eq!(exit_code(RunOutcome::ResolutionFailure), 2);
}

#[test]
fn shown_records() {
    let tcp = |open: bool| ScanResult {
        kind: "scan",
        host: "h".into(),
        ip: "h".into(),
        port: 1,
        open,
        latency_ms: 0,
        transport: Transport::Tcp,
        udp_state: None,
        service: None,
        product: None,
        version: None,
        banner: None,
        error: None,
    };
    let udp = |state: UdpState| ScanResult {
        transport: Transport::Udp,
        udp_state: Some(state),
        open: state != UdpState::Closed,
        ..tcp(false)
    };
    assert!(shows_scan(&tcp(true), false));
    assert!(!shows_scan(&tcp(false), false));
    assert!(shows_scan(&tcp(false), true));
    assert!(shows_scan(&udp(UdpState::Open), false));
    assert!(!shows_scan(&udp(UdpState::OpenOrFiltered), false));
    assert!(!shows_scan(&udp(UdpState::Closed), false));
    assert!(shows_scan(&udp(UdpState::OpenOrFiltered), true));
    assert!(shows_scan(&udp(UdpState::Closed), true));
    assert!(shows_host(HostState::Alive, false));
    assert!(!shows_host(HostState::Unknown, false));
    assert!(shows_host(HostState::Unknown, true));
}

#[test]
fn hosts_are_sorted_and_deduplicated() {
    let hosts: Vec<String> = ["10.0.0.2", "10.0.0.10", "::1", "10.0.0.2", "10.0.0.1"]
        .iter()
        .map(|s| s.to_string())
        .collect();
    let mut expected = hosts.clone();
    expected.sort();
    expected.dedup();
    assert_eq!(sorted_distinct(hosts), expected);
    assert_eq!(
        sorted_distinct(vec!["b".into(), "a".into(), "ab".into(), "a".into(), "".into()]),
        vec!["", "a", "ab", "b"]
    );
    assert!(sorted_distinct(Vec::new()).is_empty());
}

#[test]
fn rejects_zero_sized_execution_limits() {
    for options in [
        RunOptions { concurrency: 0, ..options() },
        RunOptions { result_buffer: 0, ..options() },
    ] {
        assert!(rejection(options).contains("greater than zero"));
    }
}

#[test]
fn dns_failures_are_reported_and_exit_code_is_nonzero() {
    use_failure_report("does-not-exist.pscan.invalid");
}

fn use_failure_report(host: &str) {
    let (targets, failure) = pscan::scanner::resolution(
        host.to_string(),
        pscan::scanner::LookupOutcome::Failed("failed to lookup address information".to_string()),
    );
    assert!(targets.is_empty());
    let (name, message) = failure.expect("a reported failure");
    assert_eq!(name, host);
    assert!(message.contains("resolve"));
    assert_eq!(exit_code(run_outcome(false, true)), 2);
}

#[test]
fn run_stages_follow_resolution_and_discovery() {
    assert_eq!(stage_after_resolution(0, true, false, false), RunStage::Finish);
    assert_eq!(stage_after_resolution(0, false, false, false), RunStage::Finish);
    assert_eq!(stage_after_resolution(2, true, false, false), RunStage::Discover);
    assert_eq!(stage_after_resolution(2, false, true, true), RunStage::Discover);
    assert_eq!(stage_after_resolution(2, false, false, false), RunStage::Scan);
    assert_eq!(stage_after_resolution(2, false, false, true), RunStage::Finish);
    assert_eq!(stage_after_discovery(3, false, false), RunStage::Scan);
    assert_eq!(stage_after_discovery(3, true, false), RunStage::Finish);
    assert_eq!(stage_after_discovery(3, false, true), RunStage::Finish);
    assert_eq!(stage_after_discovery(0, false, false), RunStage::Finish);
}

fn discovered(ip: &str, state: HostState) -> HostDiscoveryResult {
    HostDiscoveryResult {
        kind: "host",
        host: ip.to_string(),
        ip: ip.to_string(),
        state,
        method: "tcp".to_string(),
        latency_ms: 1,
    }
}

#[test]
fn only_live_hosts_are_scanned_after_discovery() {
    let results = vec![
        discovered("192.0.2.1", HostState::Alive),
        discovered("192.0.2.2", HostState::Unknown),
        discovered("192.0.2.3", HostState::Alive),
    ];
    assert_eq!(alive_hosts(&results), vec!["192.0.2.1", "192.0.2.3"]);
    assert!(alive_hosts(&[]).is_empty());
}

#[test]
fn scan_settings_follow_the_options() {
    let tcp = scan_config(&options(), 0, Duration::from_millis(800), Duration::from_millis(1200));
    assert_eq!(tcp.concurrency, 500);
    assert_eq!(tcp.result_buffer, 1024);
    assert_eq!(tcp.connect_timeout, Duration::from_millis(800));
    assert_eq!(tcp.fingerprint_timeout, Duration::from_millis(1200));
    assert_eq!(tcp.rate_limit, None);
    assert!(!tcp.service_detection);
    assert_eq!(tcp.transport, Transport::Tcp);

    let detect = scan_config(
        &RunOptions { service_detection: true, ..options() },
        25,
        Duration::from_millis(1),
        Duration::from_millis(2),
    );
    assert!(detect.service_detection);
    assert_eq!(detect.rate_limit, Some(25));

    let udp = scan_config(
        &RunOptions { service_detection: true, udp: true, ..options() },
        0,
        Duration::from_millis(1),
        Duration::from_millis(2),
    );
    assert!(!udp.service_detection);
    assert_eq!(udp.transport, Transport::Udp);
}
