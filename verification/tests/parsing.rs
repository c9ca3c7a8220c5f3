use pscan::ports::parse_ports;
use pscan::target::{cidr_targets, load_targets, parse_target_expressions, TargetOptions};
use pscan::PscanError;

fn message(error: PscanError) -> String {
    match error {
        PscanError::InvalidInput(text) => text,
        other => panic!("unexpected error {other:?}"),
    }
}

#[test]
fn parses_deduplicated_port_ranges() {
    assert_eq!(
        parse_ports("443,80,8000-8002,80").unwrap(),
        vec![80, 443, 8000, 8001, 8002]
    );
}

#[test]
fn rejects_invalid_ports() {
    assert!(parse_ports("0,80").is_err());
    assert!(parse_ports("90-80").is_err());
}

#[test]
fn expands_cidr_and_keeps_hostnames() {
    let targets = parse_target_expressions(
        &["192.0.2.0/30,localhost".into()],
        &TargetOptions { max_hosts: 16 },
    )
    .unwrap();
    assert_eq!(targets, vec!["192.0.2.1", "192.0.2.2", "localhost"]);
}

#[test]
fn preserves_point_to_point_and_single_host_cidrs() {
    let targets = parse_target_expressions(
        &["192.0.2.0/31,192.0.2.2/32,2001:db8::1/128".into()],
        &TargetOptions { max_hosts: 16 },
    )
    .unwrap();
    assert_eq!(
        targets,
        vec!["192.0.2.0", "192.0.2.1", "192.0.2.2", "2001:db8::1"]
    );
}

#[test]
fn expands_ipv4_ranges_and_deduplicates_targets() {
    let targets = parse_target_expressions(
        &["192.0.2.3-192.0.2.5,192.0.2.4,localhost".into()],
        &TargetOptions { max_hosts: 16 },
    )
    .unwrap();
    assert_eq!(
        targets,
        vec!["192.0.2.3", "192.0.2.4", "192.0.2.5", "localhost"]
    );
}

#[test]
fn rejects_descending_or_mixed_family_ranges() {
    assert!(parse_target_expressions(
        &["192.0.2.5-192.0.2.3".into()],
        &TargetOptions { max_hosts: 16 }
    )
    .is_err());
    assert!(parse_target_expressions(
        &["192.0.2.1-2001:db8::1".into()],
        &TargetOptions { max_hosts: 16 }
    )
    .is_err());
}

#[test]
fn enforces_target_limit() {
    let result =
        parse_target_expressions(&["10.0.0.0/8".into()], &TargetOptions { max_hosts: 100 });
    assert!(result.is_err());
}

#[test]
fn port_errors_name_the_offending_piece() {
    assert_eq!(message(parse_ports("0,80").unwrap_err()), "invalid port: 0");
    assert_eq!(
        message(parse_ports("90-80").unwrap_err()),
        "descending port range: 90-80"
    );
    assert_eq!(message(parse_ports(" , ,").unwrap_err()), "no ports supplied");
    assert_eq!(message(parse_ports("22,x-23").unwrap_err()), "invalid port: x");
    assert_eq!(message(parse_ports("65536").unwrap_err()), "invalid port: 65536");
}

#[test]
fn ports_accept_spaces_plus_signs_and_full_range() {
    assert_eq!(parse_ports(" 22 , +80, 79 - 81").unwrap(), vec![22, 79, 80, 81]);
    let all = parse_ports("1-65535").unwrap();
    assert_eq!(all.len(), 65535);
    assert_eq!(all[0], 1);
    assert_eq!(all[65534], 65535);
}

#[test]
fn target_errors_carry_exact_messages() {
    let options = TargetOptions { max_hosts: 16 };
    let error = |expr: &str| message(parse_target_expressions(&[expr.into()], &options).unwrap_err());
    assert_eq!(error("192.0.2.5-192.0.2.3"), "descending IP range: 192.0.2.5-192.0.2.3");
    assert_eq!(
        error("192.0.2.1-2001:db8::1"),
        "IP range endpoints use different address families: 192.0.2.1-2001:db8::1"
    );
    assert_eq!(error("192.0.2.1-nope"), "invalid IP range: 192.0.2.1-nope");
    assert_eq!(error("192.0.2.0/33"), "invalid CIDR: 192.0.2.0/33");
    assert_eq!(error("bad_name"), "invalid target: bad_name");
    assert_eq!(error("-lead.example"), "invalid target: -lead.example");
    assert_eq!(error(" # only a comment"), "no targets supplied");
    assert_eq!(
        error("10.0.0.0/24"),
        "target limit exceeded (16); raise --max-hosts deliberately"
    );
    assert_eq!(
        error("2001:db8::-2001:db8::ffff"),
        "target limit exceeded (16); raise --max-hosts deliberately"
    );
    assert_eq!(
        message(parse_target_expressions(&["a".into()], &TargetOptions { max_hosts: 0 }).unwrap_err()),
        "max_hosts must be greater than zero"
    );
}

#[test]
fn targets_keep_first_mention_order_and_tokens_as_written() {
    assert_eq!(
        message(
            parse_target_expressions(&["a.example # note".into()], &TargetOptions { max_hosts: 4 })
                .unwrap_err()
        ),
        "invalid target: a.example # note"
    );
    let targets = parse_target_expressions(
        &[
            "b.example, a.example".into(),
            "#comment".into(),
            "my-host,2001:DB8::1,2001:db8::1/127,b.example".into(),
        ],
        &TargetOptions { max_hosts: 16 },
    )
    .unwrap();
    assert_eq!(
        targets,
        vec![
            "b.example",
            "a.example",
            "my-host",
            "2001:DB8::1",
            "2001:db8::",
            "2001:db8::1"
        ]
    );
}

#[test]
fn ipv6_ranges_and_blocks_expand_in_order() {
    let targets = parse_target_expressions(
        &["::ffff:10.0.0.1-::ffff:10.0.0.2,fe80::/126".into()],
        &TargetOptions { max_hosts: 16 },
    )
    .unwrap();
    assert_eq!(
        targets,
        vec!["::ffff:10.0.0.1", "::ffff:10.0.0.2", "fe80::", "fe80::1", "fe80::2", "fe80::3"]
    );
}

#[test]
fn load_targets_appends_file_lines() {
    let targets = load_targets(
        &["127.0.0.1".into()],
        Some("# production\r\n192.0.2.0/30\n\nexample.com\n"),
        &TargetOptions { max_hosts: 16 },
    )
    .unwrap();
    assert_eq!(targets, vec!["127.0.0.1", "192.0.2.1", "192.0.2.2", "example.com"]);
    let targets = load_targets(&["127.0.0.1".into()], None, &TargetOptions { max_hosts: 16 }).unwrap();
    assert_eq!(targets, vec!["127.0.0.1"]);
}

#[test]
fn target_lists_are_distinct_and_within_the_limit() {
    let targets = parse_target_expressions(
        &["10.0.0.0/30,10.0.0.1,10.0.0.1-10.0.0.2".into()],
        &TargetOptions { max_hosts: 2 },
    )
    .unwrap();
    assert_eq!(targets, vec!["10.0.0.1", "10.0.0.2"]);
    let mut seen = targets.clone();
    seen.sort();
    seen.dedup();
    assert_eq!(seen.len(), targets.len());
}

#[test]
fn later_expressions_only_append_targets() {
    let first: Vec<String> = vec!["b.example".into(), "10.0.0.1".into()];
    let mut more = first.clone();
    more.push("a.example, b.example".into());
    more.push("10.0.0.0/31".into());
    let options = TargetOptions { max_hosts: 16 };
    let a = parse_target_expressions(&first, &options).unwrap();
    let ab = parse_target_expressions(&more, &options).unwrap();
    assert_eq!(a, vec!["b.example", "10.0.0.1"]);
    assert_eq!(ab, vec!["b.example", "10.0.0.1", "a.example", "10.0.0.0"]);
    assert_eq!(&ab[..a.len()], &a[..]);
}

#[test]
fn expanded_targets_are_addresses_that_read_back() {
    use_address_checks(&["10.0.0.0/30,::ffff:10.0.0.1-::ffff:10.0.0.3,2001:db8::/126".into()]);
}

fn use_address_checks(expressions: &[String]) {
    let targets = parse_target_expressions(expressions, &TargetOptions { max_hosts: 64 }).unwrap();
    assert_eq!(targets.len(), 2 + 3 + 4);
    for target in &targets {
        let address = pscan::ip::parse_address(target).expect("an address");
        assert_eq!(&address.to_text(), target);
    }
}

#[test]
fn comment_lines_name_nothing() {
    assert_eq!(
        parse_target_expressions(
            &["# lab, 192.0.2.9".into(), "192.0.2.1".into(), "  #x,192.0.2.8".into()],
            &TargetOptions { max_hosts: 16 }
        )
        .unwrap(),
        vec!["192.0.2.1"]
    );
    assert_eq!(
        parse_target_expressions(&["192.0.2.1, # note, 192.0.2.2".into()], &TargetOptions { max_hosts: 16 })
            .unwrap(),
        vec!["192.0.2.1", "192.0.2.2"]
    );
    assert_eq!(
        message(parse_target_expressions(&["# only".into()], &TargetOptions { max_hosts: 16 }).unwrap_err()),
        "no targets supplied"
    );
}

#[test]
fn ports_of_a_joined_expression_are_the_union() {
    for (a, b) in [("22,80", "443,80"), ("1-5", "3-8"), ("9000", "9000"), (" 7 ", "8-8,7")] {
        let mut union = parse_ports(a).unwrap();
        union.extend(parse_ports(b).unwrap());
        union.sort();
        union.dedup();
        assert_eq!(parse_ports(&format!("{a},{b}")).unwrap(), union);
        assert_eq!(parse_ports(&format!("{b},{a}")).unwrap(), union);
    }
    assert_eq!(parse_ports("22,22").unwrap(), parse_ports("22").unwrap());
}

#[test]
fn repeated_or_joined_expressions_name_the_same_targets() {
    let exprs: Vec<String> = vec!["b.example, 10.0.0.0/30".into(), "10.0.0.2-10.0.0.3".into(), "a.example".into()];
    let options = TargetOptions { max_hosts: 5 };
    let once = parse_target_expressions(&exprs, &options).unwrap();
    assert_eq!(once, vec!["b.example", "10.0.0.1", "10.0.0.2", "10.0.0.3", "a.example"]);
    let twice: Vec<String> = [exprs.clone(), exprs.clone()].concat();
    assert_eq!(parse_target_expressions(&twice, &options).unwrap(), once);
    assert_eq!(parse_target_expressions(&[exprs.join(",")], &options).unwrap(), once);
    let small = TargetOptions { max_hosts: 4 };
    assert_eq!(
        message(parse_target_expressions(&twice, &small).unwrap_err()),
        message(parse_target_expressions(&exprs, &small).unwrap_err())
    );
}

#[test]
fn parsed_blocks_expand_to_their_hosts() {
    let mut targets: Vec<String> = vec!["seed".to_string()];
    cidr_targets(false, 0x0a00_0000, 30, &mut targets, 16).unwrap();
    assert_eq!(targets, vec!["seed", "10.0.0.1", "10.0.0.2"]);

    let mut targets: Vec<String> = Vec::new();
    cidr_targets(false, 0x0a00_0004, 31, &mut targets, 16).unwrap();
    cidr_targets(false, 0x0a00_0009, 32, &mut targets, 16).unwrap();
    assert_eq!(targets, vec!["10.0.0.4", "10.0.0.5", "10.0.0.9"]);

    let mut targets: Vec<String> = vec!["10.0.0.1".to_string()];
    cidr_targets(false, 0x0a00_0000, 30, &mut targets, 16).unwrap();
    assert_eq!(targets, vec!["10.0.0.1", "10.0.0.2"]);

    let mut targets: Vec<String> = Vec::new();
    cidr_targets(true, 0xfe80u128 << 112, 127, &mut targets, 16).unwrap();
    assert_eq!(targets, vec!["fe80::", "fe80::1"]);

    let mut targets: Vec<String> = Vec::new();
    let error = cidr_targets(false, 0x0a00_0000, 24, &mut targets, 16).unwrap_err();
    assert_eq!(message(error), "target limit exceeded (16); raise --max-hosts deliberately");
}
