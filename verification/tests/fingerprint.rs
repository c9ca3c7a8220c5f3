use pscan::fingerprint::{identify, port_fallback, service_for_port};

#[test]
fn parses_common_passive_banners() {
    let ssh = identify(49152, b"SSH-2.0-OpenSSH_9.9p1 Debian-1\r\n");
    assert_eq!(ssh.service.as_deref(), Some("ssh"));
    assert_eq!(ssh.product.as_deref(), Some("OpenSSH"));
    assert_eq!(ssh.version.as_deref(), Some("9.9p1"));

    let mysql = identify(49153, b"\x4a\x00\x00\x00\x0a8.4.0\x00");
    assert_eq!(mysql.service.as_deref(), Some("mysql"));
    assert_eq!(mysql.version.as_deref(), Some("8.4.0"));
}

#[test]
fn rejects_mysql_shaped_random_bytes() {
    // 3-byte length header claims 0 bytes of payload; byte 4 accidentally matches protocol 0x0a.
    let banner = [0x00, 0x00, 0x00, 0x00, 0x0a, 0x41, 0x42];
    let fingerprint = identify(0, &banner);
    assert_ne!(fingerprint.service.as_deref(), Some("mysql"));
}

#[test]
fn parses_http_server_header() {
    let result = identify(
        49154,
        b"HTTP/1.1 200 OK\r\nServer: nginx/1.27.0\r\nContent-Length: 0\r\n\r\n",
    );
    assert_eq!(result.service.as_deref(), Some("http"));
    assert_eq!(result.product.as_deref(), Some("nginx"));
    assert_eq!(result.version.as_deref(), Some("1.27.0"));
}

#[test]
fn recognises_line_protocols_case_insensitively() {
    let svc = |port: u16, banner: &[u8]| identify(port, banner).service;
    assert_eq!(svc(1000, b"+PONG\r\n").as_deref(), Some("redis"));
    assert_eq!(svc(1000, b"-ERR unknown command, Redis\r\n").as_deref(), Some("redis"));
    assert_eq!(svc(1000, b"-ERR nope\r\n"), None);
    assert_eq!(svc(1000, b"+OK Dovecot ready.\r\n").as_deref(), Some("pop3"));
    assert_eq!(svc(1000, b"* OK [CAPABILITY IMAP4rev1] ready\r\n").as_deref(), Some("imap"));
    assert_eq!(svc(1000, b"* PREAUTH hi\r\n").as_deref(), Some("imap"));
    assert_eq!(svc(1000, b"220 mail.example ESMTP Postfix\r\n").as_deref(), Some("smtp"));
    assert_eq!(svc(1000, b"220 (vsFTPd 3.0.5)\r\n").as_deref(), Some("ftp"));
    assert_eq!(svc(21, b"220 welcome\r\n").as_deref(), Some("ftp"));
    assert_eq!(svc(1000, b"220 welcome\r\n"), None);
    assert_eq!(svc(1000, b"S").as_deref(), Some("postgresql"));
    assert_eq!(svc(1000, b"N").as_deref(), Some("postgresql"));
    assert_eq!(svc(6379, b"").as_deref(), Some("redis"));
    assert_eq!(svc(1000, b"\xff\xfe junk"), None);
}

#[test]
fn http_on_tls_ports_and_missing_server_header() {
    let https = identify(443, b"HTTP/1.0 404 Not Found\r\nSERVER:   Apache \r\n\r\n");
    assert_eq!(https.service.as_deref(), Some("https"));
    assert_eq!(https.product.as_deref(), Some("Apache"));
    assert_eq!(https.version, None);
    let bare = identify(8080, b"http/1.1 200 OK\r\nX-Server: a/b\r\n");
    assert_eq!(bare.service.as_deref(), Some("http"));
    assert_eq!(bare.product, None);
    assert_eq!(bare.version, None);
}

#[test]
fn ssh_without_software_field_or_version() {
    let plain = identify(22, b"SSH-2.0-dropbear\r\n");
    assert_eq!(plain.product.as_deref(), Some("dropbear"));
    assert_eq!(plain.version, None);
    let short = identify(22, b"SSH-2.0\r\n");
    assert_eq!(short.service.as_deref(), Some("ssh"));
    assert_eq!(short.product, None);
    assert_eq!(short.version, None);
    let lossy = identify(22, b"SSH-2.0-Open\xffSSH_1\r\n");
    assert_eq!(lossy.product.as_deref(), Some("Open\u{fffd}SSH"));
    assert_eq!(lossy.version.as_deref(), Some("1"));
}

#[test]
fn mysql_version_text_is_decoded() {
    let fp = identify(3307, b"\x4a\x00\x00\x00\x0a5.7.44-log\x00rest");
    assert_eq!(fp.product.as_deref(), Some("MySQL"));
    assert_eq!(fp.version.as_deref(), Some("5.7.44-log"));
    // A version byte outside the printable range disqualifies the greeting.
    let fp = identify(3307, b"\x4a\x00\x00\x00\x0a5.7 x\x00");
    assert_ne!(fp.product.as_deref(), Some("MySQL"));
}

#[test]
fn port_fallback_matches_service_table() {
    for port in [20u16, 21, 22, 23, 25, 53, 80, 110, 143, 443, 465, 587, 993, 995, 3306, 5432, 6379, 8000, 8080, 8443, 8888] {
        let fp = port_fallback(port);
        assert!(fp.is_identified());
        assert_eq!(fp.service.as_deref(), service_for_port(port));
        assert_eq!(fp.product, None);
    }
    assert_eq!(service_for_port(9999), None);
    assert!(!port_fallback(9999).is_identified());
    assert_eq!(service_for_port(5432), Some("postgresql"));
}
