use pscan::ip::IpAddress;
use pscan::output::{ColorMode, OutputFormat, OutputSummary, ResultWriter};
use pscan::scanner::{HostDiscoveryResult, HostState, ScanResult, Transport, UdpState};

fn record(host: &str, ip: &str, port: u16, open: bool) -> ScanResult {
    ScanResult {
        kind: "scan",
        host: host.into(),
        ip: ip.into(),
        port,
        open,
        latency_ms: 0,
        service: None,
        product: None,
        version: None,
        banner: None,
        error: None,
        transport: Transport::Tcp,
        udp_state: None,
    }
}

#[test]
fn text_output_preserves_closed_state_and_error() {
    let mut writer = ResultWriter::new(OutputFormat::Text, false, false);
    writer.write(&ScanResult {
        error: Some("connection refused".into()),
        ..record("127.0.0.1", "127.0.0.1", 9, false)
    });
    let output = writer.flush();
    assert!(output.contains("- closed"));
    assert!(output.contains("127.0.0.1:9"));
    assert!(output.contains("tcp"));
    assert!(output.contains("error   connection refused"));
    assert!(!output.contains("\x1b["));
}

#[test]
fn text_output_brackets_ipv6_addresses() {
    let mut writer = ResultWriter::new(OutputFormat::Text, false, false);
    writer.write(&ScanResult {
        service: Some("ssh".into()),
        ..record("::1", "::1", 22, true)
    });
    let output = writer.flush();
    assert!(output.contains("+ open"));
    assert!(output.contains("[::1]:22"));
    assert!(output.contains("tcp"));
    assert!(output.contains("ssh"));
}

#[test]
fn color_always_emits_ansi_for_text_files() {
    let mut writer = ResultWriter::with_color(OutputFormat::Text, ColorMode::Always, false, false);
    writer.write(&scan_result(true, None));
    let output = writer.flush();
    assert!(output.contains("\x1b[32m+\x1b[0m"));
}

#[test]
fn summary_counts_hidden_and_uncertain_results() {
    let mut writer = ResultWriter::new(OutputFormat::Text, false, false);
    writer.write(&scan_result(true, None));
    writer.record_hidden(&scan_result(false, None));
    writer.write(&scan_result(false, Some(UdpState::OpenOrFiltered)));
    writer.write_summary();
    let output = writer.flush();

    assert_eq!(
        writer.summary(),
        OutputSummary {
            scanned: 3,
            open: 1,
            closed: 1,
            uncertain: 1,
            ..OutputSummary::default()
        }
    );
    assert!(output.contains("Summary  3 scanned  1 open  1 uncertain  1 closed"));
}

fn scan_result(open: bool, udp_state: Option<UdpState>) -> ScanResult {
    ScanResult {
        kind: "scan",
        host: "127.0.0.1".into(),
        ip: "127.0.0.1".into(),
        port: 80,
        open,
        latency_ms: 3,
        service: Some("http".into()),
        product: None,
        version: None,
        banner: None,
        error: if !open && udp_state.is_none() {
            Some("connection refused".into())
        } else {
            None
        },
        transport: if udp_state.is_some() {
            Transport::Udp
        } else {
            Transport::Tcp
        },
        udp_state,
    }
}

#[test]
fn scan_line_has_fixed_columns() {
    let mut writer = ResultWriter::new(OutputFormat::Text, false, false);
    writer.write(&ScanResult {
        service: Some("ssh".into()),
        product: Some("OpenSSH".into()),
        version: Some("9.9p1".into()),
        latency_ms: 12,
        ..record("example.org", "192.0.2.7", 22, true)
    });
    assert_eq!(
        writer.flush(),
        "+ open          192.0.2.7:22            tcp     12 ms  ssh OpenSSH 9.9p1  (example.org)\n"
    );
}

#[test]
fn product_equal_to_service_is_not_repeated() {
    let mut writer = ResultWriter::new(OutputFormat::Text, false, false);
    writer.write(&ScanResult {
        service: Some("http".into()),
        product: Some("http".into()),
        ..record("a", "a", 80, true)
    });
    assert!(writer.flush().contains("ms  http\n"));
}

#[test]
fn banner_and_error_are_escaped() {
    let mut writer = ResultWriter::new(OutputFormat::Text, false, false);
    writer.write(&ScanResult {
        banner: Some("hi\r\n\u{1b}é".into()),
        error: Some("tab\there".into()),
        ..record("h", "h", 1, true)
    });
    let output = writer.flush();
    assert!(output.contains("    banner  hi\\r\\n\\u{1b}\\u{e9}\n"));
    assert!(output.contains("    error   tab\\there\n"));
}

#[test]
fn udp_states_are_named() {
    let mut writer = ResultWriter::new(OutputFormat::Text, false, false);
    for state in [UdpState::Open, UdpState::Closed, UdpState::OpenOrFiltered] {
        writer.write(&ScanResult {
            transport: Transport::Udp,
            udp_state: Some(state),
            ..record("h", "h", 53, state == UdpState::Open)
        });
    }
    let output = writer.flush();
    assert!(output.contains("+ open          h:53                    udp"));
    assert!(output.contains("- closed        h:53"));
    assert!(output.contains("? open|filtered h:53"));
}

#[test]
fn jsonl_writer_renders_only_encoded_lines() {
    let mut writer = ResultWriter::with_color(OutputFormat::Jsonl, ColorMode::Always, true, false);
    writer.write(&record("h", "h", 1, true));
    writer.write_summary();
    writer.write_encoded("{\"a\":1}");
    assert_eq!(writer.flush(), "{\"a\":1}\n");
    assert_eq!(writer.summary().scanned, 1);
    assert_eq!(writer.flush(), "");
}

#[test]
fn auto_color_follows_terminal_and_no_color() {
    let line = |terminal: bool, no_color: bool| {
        let mut writer = ResultWriter::new(OutputFormat::Text, terminal, no_color);
        writer.write(&record("h", "h", 1, true));
        writer.flush()
    };
    assert!(line(true, false).contains("\x1b["));
    assert!(!line(true, true).contains("\x1b["));
    assert!(!line(false, false).contains("\x1b["));
    let mut never = ResultWriter::with_color(OutputFormat::Text, ColorMode::Never, true, false);
    never.write(&record("h", "h", 1, true));
    assert!(!never.flush().contains("\x1b["));
}

#[test]
fn host_lines_and_host_summary() {
    let mut writer = ResultWriter::new(OutputFormat::Text, false, false);
    writer.write_host(&HostDiscoveryResult {
        kind: "host",
        host: "gw".into(),
        ip: "10.0.0.1".into(),
        state: HostState::Alive,
        method: "icmp".into(),
        latency_ms: 4,
    });
    writer.write_host(&HostDiscoveryResult {
        kind: "host",
        host: "10.0.0.2".into(),
        ip: "10.0.0.2".into(),
        state: HostState::Unknown,
        method: "none".into(),
        latency_ms: 0,
    });
    writer.write_summary();
    let output = writer.flush();
    assert!(output.starts_with(
        "+ alive         10.0.0.1                icmp          4 ms  (gw)\n? unknown       10.0.0.2                none          0 ms\n"
    ));
    assert!(output.ends_with("Summary  1 alive  1 unknown\n"));
    assert_eq!(writer.summary().hosts_alive, 1);
    assert_eq!(writer.summary().hosts_unknown, 1);
}

#[test]
fn errors_count_except_expected_closed_tcp() {
    let mut writer = ResultWriter::new(OutputFormat::Text, false, false);
    writer.record_hidden(&ScanResult {
        error: Some("refused".into()),
        ..record("h", "h", 1, false)
    });
    writer.record_hidden(&ScanResult {
        error: Some("timed out".into()),
        ..record("h", "h", 2, true)
    });
    writer.record_hidden(&ScanResult {
        error: Some("unreachable".into()),
        transport: Transport::Udp,
        udp_state: Some(UdpState::Closed),
        ..record("h", "h", 3, false)
    });
    let summary = writer.summary();
    assert_eq!(summary.scanned, 3);
    assert_eq!(summary.errors, 2);
    assert_eq!(summary.open + summary.closed + summary.uncertain, summary.scanned);
    writer.write_summary();
    assert!(writer
        .flush()
        .ends_with("Summary  3 scanned  1 open  2 closed  2 errors\n"));
}

#[test]
fn only_ipv6_endpoints_are_bracketed() {
    for (address, endpoint) in [
        (IpAddress::V4(0x7f00_0001), "127.0.0.1:8080"),
        (IpAddress::V6(1), "[::1]:8080"),
        (IpAddress::V6(0xffff_7f00_0001), "[::ffff:127.0.0.1]:8080"),
        (IpAddress::V6(0x2001_0db8_0001_0002_0003_0004_0005_0006), "[2001:db8:1:2:3:4:5:6]:8080"),
    ] {
        let ip = address.to_text();
        let mut writer = ResultWriter::new(OutputFormat::Text, false, false);
        writer.write(&record(&ip, &ip, 8080, true));
        let line = writer.flush();
        assert!(line.starts_with(&format!("+ open          {endpoint}")), "{line}");
    }
}

#[test]
fn escaped_notes_are_printable_ascii() {
    let mut writer = ResultWriter::new(OutputFormat::Text, false, false);
    writer.write(&ScanResult {
        banner: Some("\u{1b}[31mred\u{7}\u{0}\u{9b}\u{10ffff}\"'\\".into()),
        ..record("h", "h", 1, true)
    });
    let output = writer.flush();
    let banner_line = output.lines().nth(1).unwrap();
    assert_eq!(
        banner_line,
        "    banner  \\u{1b}[31mred\\u{7}\\u{0}\\u{9b}\\u{10ffff}\\\"\\'\\\\"
    );
    assert!(banner_line.chars().all(|c| (' '..='~').contains(&c)));
}
