use pscan::fingerprint::Fingerprint;
use pscan::ip::{address_less, parse_address, IpAddress};
use pscan::scanner::{discovery_start, discovery_step, ConnectOutcome, DiscoveryAction, ResolvedTarget};
use pscan::scanner::{
    adopt_probe, banner_room, banner_text, closed_tcp, host_alive, host_identifier, host_unknown,
    http_probe_request, literal_target, needs_http_probe, next_slot, open_tcp, passive_wait_ms,
    first_job, next_job, resolution, resolve_concurrency, sanitize_banner, sanitize_text, saturating_millis,
    settle_fingerprint, sorted_addresses, tcp_method, udp_outcome_result, udp_probe, HostState,
    LookupOutcome, Transport, UdpOutcome, UdpState, MAX_BANNER_BYTES, PASSIVE_WAIT_MS,
};

fn fp(service: Option<&str>, product: Option<&str>, version: Option<&str>) -> Fingerprint {
    Fingerprint {
        service: service.map(String::from),
        product: product.map(String::from),
        version: version.map(String::from),
    }
}

#[test]
fn udp_probes_by_port() {
    assert_eq!(
        udp_probe(53),
        vec![0x12, 0x34, 0x01, 0x00, 0x00, 0x01, 0x00, 0x00, 0x00, 0x00, 0x00, 0x00, 0x00, 0x00, 0x02, 0x00, 0x01]
    );
    let ntp = udp_probe(123);
    assert_eq!(ntp.len(), 47);
    assert_eq!(ntp[0], 0x1b);
    assert!(ntp[1..].iter().all(|b| *b == 0));
    assert_eq!(udp_probe(161), b"Pscan".to_vec());
}

#[test]
fn banners_are_blanked_and_collapsed() {
    assert_eq!(sanitize_banner(b"  SSH-2.0\r\n\x00x  y\t"), "SSH-2.0 x y");
    assert_eq!(sanitize_banner(b"ab\xffcd"), "ab\u{fffd}cd");
    assert_eq!(sanitize_banner(b"\x07\x1b"), "");
    assert_eq!(sanitize_banner("caf\u{e9} \u{85}bar".as_bytes()), "caf\u{e9} bar");
    assert_eq!(banner_text(b""), None);
    assert_eq!(banner_text(b" hi "), Some("hi".to_string()));
}

#[test]
fn banner_room_caps_at_the_limit() {
    assert_eq!(MAX_BANNER_BYTES, 2048);
    assert_eq!(banner_room(0, 10), 10);
    assert_eq!(banner_room(2040, 10), 8);
    assert_eq!(banner_room(2048, 5), 0);
    assert_eq!(banner_room(3000, 1), 0);
    assert_eq!(banner_room(0, 5000), 2048);
}

#[test]
fn http_probe_is_sent_for_unknown_or_bare_http() {
    assert!(needs_http_probe(&Fingerprint::default()));
    assert!(needs_http_probe(&fp(Some("http"), None, None)));
    assert!(needs_http_probe(&fp(Some("https"), None, Some("1"))));
    assert!(!needs_http_probe(&fp(Some("http"), Some("nginx"), None)));
    assert!(!needs_http_probe(&fp(Some("ssh"), None, None)));
    assert_eq!(
        http_probe_request("example.org"),
        "HEAD / HTTP/1.0\r\nHost: example.org\r\nUser-Agent: Pscan/2\r\n\r\n"
    );
}

#[test]
fn probe_answer_is_adopted_only_for_http() {
    let passive = fp(Some("ssh"), None, None);
    assert_eq!(
        adopt_probe(passive.clone(), fp(Some("http"), Some("nginx"), Some("1.27.0"))),
        fp(Some("http"), Some("nginx"), Some("1.27.0"))
    );
    assert_eq!(adopt_probe(passive.clone(), fp(Some("mysql"), None, None)), passive);
    assert_eq!(adopt_probe(passive.clone(), Fingerprint::default()), passive);
}

#[test]
fn unnamed_results_fall_back_to_the_port() {
    assert_eq!(settle_fingerprint(Fingerprint::default(), 22), fp(Some("ssh"), None, None));
    assert_eq!(settle_fingerprint(Fingerprint::default(), 9), Fingerprint::default());
    let named = fp(Some("redis"), None, None);
    assert_eq!(settle_fingerprint(named.clone(), 22), named);
}

#[test]
fn tcp_records() {
    let open = open_tcp(
        "h".into(),
        "10.0.0.1".into(),
        22,
        5,
        fp(Some("ssh"), Some("OpenSSH"), Some("9.9p1")),
        Some("SSH-2.0-OpenSSH_9.9p1".into()),
    );
    assert_eq!(open.kind, "scan");
    assert!(open.open);
    assert_eq!(open.transport, Transport::Tcp);
    assert_eq!(open.udp_state, None);
    assert_eq!(open.product.as_deref(), Some("OpenSSH"));
    assert_eq!(open.error, None);
    let closed = closed_tcp("h".into(), "10.0.0.1".into(), 23, 7, "connection refused".into());
    assert!(!closed.open);
    assert_eq!(closed.latency_ms, 7);
    assert_eq!(closed.service, None);
    assert_eq!(closed.error.as_deref(), Some("connection refused"));
}

#[test]
fn udp_outcomes_map_to_states() {
    let r = udp_outcome_result("h".into(), "::1".into(), 53, 1, UdpOutcome::Replied(b"\x01ok".to_vec()));
    assert_eq!(r.udp_state, Some(UdpState::Open));
    assert!(r.open);
    assert_eq!(r.service.as_deref(), Some("dns"));
    assert_eq!(r.banner.as_deref(), Some("ok"));
    assert_eq!(r.error, None);
    let r = udp_outcome_result("h".into(), "::1".into(), 53, 1, UdpOutcome::Replied(Vec::new()));
    assert_eq!(r.banner, None);
    let r = udp_outcome_result("h".into(), "::1".into(), 9, 1, UdpOutcome::Refused("refused".into()));
    assert_eq!(r.udp_state, Some(UdpState::Closed));
    assert!(!r.open);
    assert_eq!(r.service, None);
    assert_eq!(r.error.as_deref(), Some("refused"));
    let r = udp_outcome_result("h".into(), "::1".into(), 9, 1, UdpOutcome::Unsent("bind".into()));
    assert_eq!(r.udp_state, Some(UdpState::Closed));
    let r = udp_outcome_result("h".into(), "::1".into(), 123, 1, UdpOutcome::Failed("reset".into()));
    assert_eq!(r.udp_state, Some(UdpState::OpenOrFiltered));
    assert!(r.open);
    assert_eq!(r.error.as_deref(), Some("reset"));
    let r = udp_outcome_result("h".into(), "::1".into(), 123, 1, UdpOutcome::Silent);
    assert_eq!(r.udp_state, Some(UdpState::OpenOrFiltered));
    assert_eq!(r.error, None);
    assert_eq!(r.transport, Transport::Udp);
}

#[test]
fn discovery_records_and_methods() {
    let alive = host_alive("h".into(), "10.0.0.1".into(), 3, tcp_method(443, true));
    assert_eq!(alive.kind, "host");
    assert_eq!(alive.state, HostState::Alive);
    assert_eq!(alive.method, "tcp/443-refused");
    assert_eq!(tcp_method(80, false), "tcp/80");
    let unknown = host_unknown("h".into(), "10.0.0.1".into(), 0);
    assert_eq!(unknown.state, HostState::Unknown);
    assert_eq!(unknown.method, "no-response");
}

#[test]
fn identifier_is_the_wrapping_sum() {
    assert_eq!(host_identifier(IpAddress::V4(0x7f00_0001)), 128);
    assert_eq!(host_identifier(IpAddress::V4(0)), 0);
    assert_eq!(host_identifier(IpAddress::V4(0xffff_ffff)), 1020);
    assert_eq!(host_identifier(IpAddress::V6(0x2001_0db8_0000_0000_0000_0000_0000_0001)), 0x2dba);
    assert_eq!(host_identifier(IpAddress::V6(u128::MAX)), 0xfff8);
}

#[test]
fn addresses_read_write_and_order() {
    assert_eq!(parse_address("192.0.2.1"), Some(IpAddress::V4(0xc000_0201)));
    assert_eq!(parse_address("::1"), Some(IpAddress::V6(1)));
    assert_eq!(parse_address("example.org"), None);
    assert_eq!(IpAddress::V4(0xc000_0201).to_text(), "192.0.2.1");
    assert_eq!(IpAddress::V6(0x2001_0db8_0000_0000_0000_0000_0000_0001).to_text(), "2001:db8::1");
    assert!(address_less(IpAddress::V4(u32::MAX), IpAddress::V6(0)));
    assert!(!address_less(IpAddress::V6(0), IpAddress::V4(0)));
    assert!(address_less(IpAddress::V6(1), IpAddress::V6(2)));
    assert!(!address_less(IpAddress::V4(5), IpAddress::V4(5)));
}

#[test]
fn address_literals_need_no_lookup() {
    let t = literal_target("10.0.0.1".to_string()).unwrap();
    assert_eq!(t.host, "10.0.0.1");
    assert_eq!(t.ip, IpAddress::V4(0x0a00_0001));
    assert_eq!(literal_target("localhost".to_string()).unwrap_err(), "localhost");
}

#[test]
fn lookups_give_sorted_distinct_addresses() {
    let found = vec![
        IpAddress::V6(1),
        IpAddress::V4(0x7f00_0001),
        IpAddress::V6(1),
        IpAddress::V4(0x0a00_0001),
    ];
    assert_eq!(
        sorted_addresses(&found),
        vec![IpAddress::V4(0x0a00_0001), IpAddress::V4(0x7f00_0001), IpAddress::V6(1)]
    );
    let (targets, failure) = resolution("localhost".to_string(), LookupOutcome::Found(found));
    assert!(failure.is_none());
    assert_eq!(targets.len(), 3);
    assert!(targets.iter().all(|t| t.host == "localhost"));
    assert_eq!(targets[2].ip, IpAddress::V6(1));
}

#[test]
fn lookup_failures_are_reported() {
    let (targets, failure) = resolution("h".to_string(), LookupOutcome::Found(Vec::new()));
    assert!(targets.is_empty());
    assert_eq!(failure, Some(("h".to_string(), "resolve returned no addresses".to_string())));
    let (_, failure) = resolution("h".to_string(), LookupOutcome::Failed("no such host".to_string()));
    assert_eq!(failure, Some(("h".to_string(), "resolve failed: no such host".to_string())));
    let (_, failure) = resolution("h".to_string(), LookupOutcome::TimedOut);
    assert_eq!(failure, Some(("h".to_string(), "resolve timed out".to_string())));
    assert_eq!(resolve_concurrency(0), 1);
    assert_eq!(resolve_concurrency(10), 10);
    assert_eq!(resolve_concurrency(1000), 64);
}

#[test]
fn jobs_pair_targets_with_ports_in_order() {
    let ports = [22u16, 80];
    let mut jobs: Vec<(usize, u16)> = Vec::new();
    let mut current = first_job(2, ports.len());
    while let Some((t, j)) = current {
        jobs.push((t, ports[j]));
        current = next_job(t, j, 2, ports.len());
    }
    assert_eq!(jobs, vec![(0, 22), (0, 80), (1, 22), (1, 80)]);
    assert_eq!(next_job(3, 1, 4, 3), Some((3, 2)));
    assert_eq!(next_job(2, 2, 4, 3), Some((3, 0)));
    assert_eq!(next_job(3, 2, 4, 3), None);
    assert_eq!(first_job(0, 3), None);
    assert_eq!(first_job(2, 0), None);
    assert_eq!(first_job(1, 1), Some((0, 0)));
}

#[test]
fn paced_slots_are_spaced() {
    assert_eq!(next_slot(0, 0, 10), (0, 10));
    let (first, next) = next_slot(100, 50, 10);
    assert_eq!((first, next), (100, 110));
    let (second, _) = next_slot(next, 105, 10);
    assert_eq!(second, 110);
    assert!(second >= first + 10);
    assert_eq!(next_slot(100, 500, 10), (500, 510));
}

#[test]
fn timing_helpers() {
    assert_eq!(PASSIVE_WAIT_MS, 180);
    assert_eq!(passive_wait_ms(800), 180);
    assert_eq!(passive_wait_ms(50), 50);
    assert_eq!(saturating_millis(1234), 1234);
    assert_eq!(saturating_millis(u128::MAX), u64::MAX);
}

#[test]
fn sanitized_banners_hold_no_controls() {
    let bytes: Vec<u8> = (0u8..=255).collect();
    let shown = sanitize_banner(&bytes);
    assert!(shown.chars().all(|c| c == ' ' || (!c.is_whitespace() && !c.is_control())));
    assert!(!shown.contains("  "));
}

#[test]
fn passive_banner_identifies_ssh() {
    let banner = b"SSH-2.0-Pscan_Test\r\n";
    let passive = pscan::fingerprint::identify(40022, banner);
    assert!(!needs_http_probe(&passive));
    let result = settle_fingerprint(passive, 40022);
    assert_eq!(result, fp(Some("ssh"), Some("Pscan"), Some("Test")));
    assert_eq!(banner_text(banner).as_deref(), Some("SSH-2.0-Pscan_Test"));
}

#[test]
fn http_probe_identifies_a_nonstandard_port() {
    let passive = pscan::fingerprint::identify(40080, b"");
    assert_eq!(passive, Fingerprint::default());
    assert!(needs_http_probe(&passive));
    assert!(http_probe_request("127.0.0.1").starts_with("HEAD / HTTP/1.0"));
    let reply = b"HTTP/1.0 200 OK\r\nServer: pscan-test/2.0\r\n\r\n";
    let probed = pscan::fingerprint::identify(40080, reply);
    let result = settle_fingerprint(adopt_probe(passive, probed), 40080);
    assert_eq!(result, fp(Some("http"), Some("pscan-test"), Some("2.0")));
}

#[test]
fn decoded_text_is_cleaned() {
    let text: Vec<char> = "\u{0}a\t\u{1f}b\u{2028}c  ".chars().collect();
    assert_eq!(sanitize_text(&text), "a b c");
    assert_eq!(sanitize_text(&[]), "");
}

#[test]
fn tcp_outcomes_map_to_records() {
    let r = pscan::scanner::tcp_outcome_result(
        "h".into(),
        "10.0.0.1".into(),
        22,
        4,
        pscan::scanner::TcpOutcome::Connected(fp(Some("ssh"), None, None), Some("SSH-2.0".into())),
    );
    assert!(r.open);
    assert_eq!(r.service.as_deref(), Some("ssh"));
    assert_eq!(r.banner.as_deref(), Some("SSH-2.0"));
    let r = pscan::scanner::tcp_outcome_result(
        "h".into(),
        "10.0.0.1".into(),
        23,
        4,
        pscan::scanner::TcpOutcome::Failed("connection refused".into()),
    );
    assert!(!r.open);
    assert_eq!(r.error.as_deref(), Some("connection refused"));
    let r = pscan::scanner::tcp_outcome_result(
        "h".into(),
        "10.0.0.1".into(),
        24,
        4,
        pscan::scanner::TcpOutcome::TimedOut,
    );
    assert!(!r.open);
    assert_eq!(r.error.as_deref(), Some("connection timed out"));
    assert_eq!(r.transport, Transport::Tcp);
}

#[test]
fn discovery_steps_through_the_fallback_ports() {
    use_discovery_steps();
}

fn use_discovery_steps() {
    let target = ResolvedTarget { host: "gw".into(), ip: IpAddress::V4(0x0a00_0001) };
    let ports = [80u16, 443, 22];
    match discovery_start(&target, Some(3), &ports, 9) {
        DiscoveryAction::Report(h) => {
            assert_eq!(h.state, HostState::Alive);
            assert_eq!(h.method, "icmp");
            assert_eq!(h.latency_ms, 3);
            assert_eq!(h.ip, "10.0.0.1");
            assert_eq!(h.host, "gw");
        }
        DiscoveryAction::Connect(_) => panic!("an icmp answer is enough"),
    }
    assert!(matches!(discovery_start(&target, None, &ports, 9), DiscoveryAction::Connect(0)));
    match discovery_start(&target, None, &[], 9) {
        DiscoveryAction::Report(h) => {
            assert_eq!(h.state, HostState::Unknown);
            assert_eq!(h.method, "no-response");
            assert_eq!(h.latency_ms, 9);
        }
        DiscoveryAction::Connect(_) => panic!("no port to try"),
    }
    assert!(matches!(
        discovery_step(&target, &ports, 0, ConnectOutcome::NoAnswer, 5),
        DiscoveryAction::Connect(1)
    ));
    match discovery_step(&target, &ports, 1, ConnectOutcome::Refused, 6) {
        DiscoveryAction::Report(h) => {
            assert_eq!(h.state, HostState::Alive);
            assert_eq!(h.method, "tcp/443-refused");
            assert_eq!(h.latency_ms, 6);
        }
        DiscoveryAction::Connect(_) => panic!("a refusal shows the host"),
    }
    match discovery_step(&target, &ports, 2, ConnectOutcome::Connected, 7) {
        DiscoveryAction::Report(h) => assert_eq!(h.method, "tcp/22"),
        DiscoveryAction::Connect(_) => panic!("a connection shows the host"),
    }
    match discovery_step(&target, &ports, 2, ConnectOutcome::NoAnswer, 8) {
        DiscoveryAction::Report(h) => {
            assert_eq!(h.state, HostState::Unknown);
            assert_eq!(h.method, "no-response");
        }
        DiscoveryAction::Connect(_) => panic!("no port left"),
    }
}
