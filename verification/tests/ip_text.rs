use pscan::ip::{parse_ip_addr, push_ip};

fn parsed(s: &str) -> Option<(bool, u128)> {
    let chars: Vec<char> = s.chars().collect();
    parse_ip_addr(&chars)
}

fn shown(v6: bool, bits: u128) -> String {
    let mut out = Vec::new();
    push_ip(&mut out, v6, bits);
    out.into_iter().collect()
}

#[test]
fn reads_ipv4_dotted_quads() {
    assert_eq!(parsed("0.0.0.0"), Some((false, 0)));
    assert_eq!(parsed("127.0.0.1"), Some((false, 0x7f00_0001)));
    assert_eq!(parsed("255.255.255.255"), Some((false, 0xffff_ffff)));
    for bad in ["256.1.1.1", "01.2.3.4", "1.2.3", "1.2.3.4.5", "1.2.3.04", "1..2.3", " 1.2.3.4", "+1.2.3.4", ""] {
        assert_eq!(parsed(bad), None, "{bad:?}");
    }
}

#[test]
fn reads_ipv6_forms() {
    assert_eq!(parsed("::"), Some((true, 0)));
    assert_eq!(parsed("::1"), Some((true, 1)));
    assert_eq!(parsed("1::"), Some((true, 1 << 112)));
    assert_eq!(parsed("1:2:3:4:5:6:7:8"), Some((true, 0x0001_0002_0003_0004_0005_0006_0007_0008)));
    assert_eq!(parsed("1:2:3:4:5:6:7::"), Some((true, 0x0001_0002_0003_0004_0005_0006_0007_0000)));
    assert_eq!(parsed("::2:3:4:5:6:7:8"), Some((true, 0x0000_0002_0003_0004_0005_0006_0007_0008)));
    assert_eq!(parsed("1::2:3:4:5:6:7"), Some((true, 0x0001_0000_0002_0003_0004_0005_0006_0007)));
    assert_eq!(parsed("::ffff:10.0.0.1"), Some((true, 0xffff_0a00_0001)));
    assert_eq!(parsed("1:2:3:4:5:6:1.2.3.4"), Some((true, 0x0001_0002_0003_0004_0005_0006_0102_0304)));
    assert_eq!(parsed("FE80::a"), Some((true, 0xfe80 << 112 | 0xa)));
    for bad in [
        "1:2:3:4:5:6:7:8::", "1::2::3", ":::", "1:", ":1", "12345::", "1:2:3:4:5:6:7:1.2.3.4",
        "1.2.3.4::", "g::", "::1.2.3", "1:2:3:4:5:6:7", "1::2:3:4:5:6:7:8",
    ] {
        assert_eq!(parsed(bad), None, "{bad:?}");
    }
}

#[test]
fn writes_addresses_like_the_display_impls() {
    assert_eq!(shown(true, 0), "::");
    assert_eq!(shown(true, 1), "::1");
    assert_eq!(shown(true, 0xffff_0a00_0001), "::ffff:10.0.0.1");
    assert_eq!(shown(true, 0x2001_0db8_0000_0000_0000_0000_0000_0001), "2001:db8::1");
    assert_eq!(shown(true, 0x2001_0db8_0000_0001_0000_0000_0000_0001), "2001:db8:0:1::1");
    assert_eq!(shown(true, 0x2001_0db8_0000_0000_0001_0000_0000_0001), "2001:db8::1:0:0:1");
    assert_eq!(shown(true, 0xfe80 << 112), "fe80::");
    assert_eq!(shown(true, 0x0001_0000_0002_0000_0003_0000_0004_0000), "1:0:2:0:3:0:4:0");
    assert_eq!(shown(true, 0x0000_0000_0000_0000_0001_0000_0000_0000), "::1:0:0:0");
    assert_eq!(shown(true, u128::MAX), "ffff:ffff:ffff:ffff:ffff:ffff:ffff:ffff");
    assert_eq!(shown(false, 0), "0.0.0.0");
    assert_eq!(shown(false, 0xc000_0201), "192.0.2.1");
    assert_eq!(shown(false, 0xffff_ffff), "255.255.255.255");
}

#[test]
fn written_addresses_read_back() {
    for v in [0u32, 1, 0x0a00_0001, 0x7f00_0001, 0xc0a8_0164, 0x0100_00ff, u32::MAX] {
        assert_eq!(parsed(&shown(false, v as u128)), Some((false, v as u128)));
    }
    for bits in [
        0u128,
        1,
        0xffff_0a00_0001,
        0x2001_0db8_0000_0000_0001_0000_0000_0001,
        0xfe80 << 112,
        u128::MAX,
    ] {
        assert_eq!(parsed(&shown(true, bits)), Some((true, bits)));
    }
}
