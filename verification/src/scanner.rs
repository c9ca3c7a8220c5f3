//! Scan records and the decisions a scan makes between network operations.
use vstd::prelude::*;
use vstd::string::StringExecFns;
use crate::fingerprint::{
    decode_lossy, opt_text, port_service, service_for_port, utf8_lossy, Fingerprint,
    FingerprintView, port_fingerprint, port_fallback,
};
use crate::ip::{
    address_groups, address_key, address_less, address_of, address_text, groups_vec, parse_address,
    IpAddress,
};
use crate::text::{
    chars_of, is_white_space, lemma_next_ws_bounds, next_ws, push_all,
    push_decimal, skip_ws, slice_of, string_from, white_space, decimal,
};

verus! {

/// The transport a scan uses.
#[derive(Debug, Clone, Copy, PartialEq, Eq, Structural)]
pub enum Transport {
    Tcp,
    Udp,
}

/// What a UDP probe found out.
#[derive(Debug, Clone, Copy, PartialEq, Eq, Structural)]
pub enum UdpState {
    /// The target answered.
    Open,
    /// The target's kernel reported the port unreachable.
    Closed,
    /// No conclusive answer: open and silent, or filtered.
    OpenOrFiltered,
}

/// `Duration::clone`: a `Duration` is `Copy`, so its clone is the same value.
pub assume_specification[ <std::time::Duration as Clone>::clone ](d: &std::time::Duration) -> (r:
    std::time::Duration)
    ensures
        r == *d,
;

/// The settings of a port scan.
#[derive(Debug, Clone)]
pub struct ScanConfig {
    pub concurrency: usize,
    pub connect_timeout: std::time::Duration,
    pub fingerprint_timeout: std::time::Duration,
    pub service_detection: bool,
    pub rate_limit: Option<u32>,
    pub result_buffer: usize,
    pub transport: Transport,
}

/// The outcome of probing one port of one target.
#[derive(Debug, Clone)]
pub struct ScanResult {
    pub kind: &'static str,
    pub host: String,
    pub ip: String,
    pub port: u16,
    pub open: bool,
    pub latency_ms: u64,
    pub transport: Transport,
    pub udp_state: Option<UdpState>,
    pub service: Option<String>,
    pub product: Option<String>,
    pub version: Option<String>,
    pub banner: Option<String>,
    pub error: Option<String>,
}

/// Whether host discovery saw a target respond.
#[derive(Debug, Clone, Copy, PartialEq, Eq, Structural)]
pub enum HostState {
    Alive,
    Unknown,
}

/// The outcome of host discovery for one target.
#[derive(Debug, Clone)]
pub struct HostDiscoveryResult {
    pub kind: &'static str,
    pub host: String,
    pub ip: String,
    pub state: HostState,
    pub method: String,
    pub latency_ms: u64,
}

/// The settings of host discovery.
#[derive(Debug, Clone)]
pub struct HostDiscoveryConfig {
    pub concurrency: usize,
    pub timeout: std::time::Duration,
    pub tcp_ports: Vec<u16>,
    pub icmp: bool,
}

/// The most banner bytes kept from one connection.
pub const MAX_BANNER_BYTES: usize = 2048;

// ---------------------------------------------------------------- UDP probes

/// The datagram sent to a UDP port: a minimal DNS query to 53, an NTP client request to
/// 123 (the byte `0x1b` and 46 zero bytes), and the bytes `Pscan` elsewhere.
pub open spec fn probe_bytes(port: u16) -> Seq<u8> {
    if port == 53 {
        seq![0x12u8, 0x34, 0x01, 0x00, 0x00, 0x01, 0x00, 0x00, 0x00, 0x00, 0x00, 0x00, 0x00, 0x00,
            0x02, 0x00, 0x01]
    } else if port == 123 {
        seq![0x1bu8].add(Seq::new(46, |i: int| 0u8))
    } else {
        seq![0x50u8, 0x73, 0x63, 0x61, 0x6e]
    }
}

/// The probe datagram for a UDP port.
pub fn udp_probe(port: u16) -> (r: Vec<u8>)
    ensures
        r@ == probe_bytes(port),
{
    if port == 53 {
        let r: Vec<u8> = vec![0x12, 0x34, 0x01, 0x00, 0x00, 0x01, 0x00, 0x00, 0x00, 0x00, 0x00, 0x00,
        0x00, 0x00, 0x02, 0x00, 0x01];
        assert(r@ =~= probe_bytes(port));
        r
    } else if port == 123 {
        let mut r: Vec<u8> = vec![0x1b];
        let mut i: usize = 0;
        while i < 46
            invariant
                0 <= i <= 46,
                r@ == seq![0x1bu8].add(Seq::new(i as nat, |k: int| 0u8)),
            decreases 46 - i,
        {
            r.push(0);
            i = i + 1;
            assert(r@ =~= seq![0x1bu8].add(Seq::new(i as nat, |k: int| 0u8)));
        }
        r
    } else {
        let r: Vec<u8> = vec![0x50, 0x73, 0x63, 0x61, 0x6e];
        assert(r@ =~= probe_bytes(port));
        r
    }
}

// ---------------------------------------------------------------- banners

/// `char::is_control`: the Unicode control characters, U+0000 to U+001F and U+007F to
/// U+009F.
pub open spec fn is_control(c: char) -> bool {
    (c as u32) <= 0x1f || (0x7f <= (c as u32) <= 0x9f)
}

/// Control characters other than tab replaced by spaces.
pub open spec fn blank_controls(s: Seq<char>) -> Seq<char> {
    s.map_values(|c: char| if is_control(c) && c != '\t' { ' ' } else { c })
}

/// The words of `s[i..]`: its maximal runs of characters that are not white space.
pub open spec fn words_from(s: Seq<char>, i: int) -> Seq<Seq<char>>
    decreases s.len() - i,
{
    let a = skip_ws(s, i);
    if i < 0 || a < i || a >= s.len() {
        Seq::empty()
    } else {
        let b = next_ws(s, a);
        if b <= a || b > s.len() {
            Seq::empty()
        } else {
            seq![s.subrange(a, b)] + words_from(s, b)
        }
    }
}

/// Words separated by single spaces.
pub open spec fn join_spaced(ws: Seq<Seq<char>>) -> Seq<char>
    decreases ws.len(),
{
    if ws.len() == 0 {
        Seq::empty()
    } else if ws.len() == 1 {
        ws[0]
    } else {
        join_spaced(ws.drop_last()) + seq![' '] + ws.last()
    }
}

/// Text as shown to the user: control characters blanked, and runs of white space
/// collapsed to single spaces with none at either end.
pub open spec fn clean_text(t: Seq<char>) -> Seq<char> {
    join_spaced(words_from(blank_controls(t), 0))
}

/// A banner as shown to the user: decoded, then cleaned.
pub open spec fn sanitized(bytes: Seq<u8>) -> Seq<char> {
    clean_text(utf8_lossy(bytes))
}

fn blank_control(c: char) -> (r: char)
    ensures
        r == (if is_control(c) && c != '\t' {
            ' '
        } else {
            c
        }),
{
    let v = c as u32;
    if (v <= 0x1f || (0x7f <= v && v <= 0x9f)) && c != '\t' {
        ' '
    } else {
        c
    }
}

proof fn lemma_skip_ws_mono(s: Seq<char>, i: int)
    requires
        0 <= i <= s.len(),
    ensures
        i <= skip_ws(s, i) <= s.len(),
        skip_ws(s, i) < s.len() ==> !is_white_space(s[skip_ws(s, i)]),
    decreases s.len() - i,
{
    if i < s.len() && is_white_space(s[i]) {
        lemma_skip_ws_mono(s, i + 1);
    }
}

proof fn lemma_next_ws_mono(s: Seq<char>, i: int)
    requires
        0 <= i < s.len(),
        !is_white_space(s[i]),
    ensures
        i < next_ws(s, i) <= s.len(),
{
    lemma_next_ws_bounds(s, i + 1);
}

/// Renders banner bytes for display.
pub fn sanitize_banner(bytes: &[u8]) -> (r: String)
    ensures
        r@ == sanitized(bytes@),
{
    let raw = decode_lossy(bytes);
    sanitize_text(&raw)
}

/// Renders decoded banner text for display.
pub fn sanitize_text(raw: &[char]) -> (r: String)
    ensures
        r@ == clean_text(raw@),
{
    let mut s: Vec<char> = Vec::new();
    let mut k: usize = 0;
    while k < raw.len()
        invariant
            0 <= k <= raw@.len(),
            s@ == blank_controls(raw@.subrange(0, k as int)),
        decreases raw@.len() - k,
    {
        s.push(blank_control(raw[k]));
        k = k + 1;
        assert(s@ =~= blank_controls(raw@.subrange(0, k as int)));
    }
    assert(raw@.subrange(0, raw@.len() as int) =~= raw@);
    let n = s.len();
    let mut out: Vec<char> = Vec::new();
    let ghost mut ws: Seq<Seq<char>> = Seq::empty();
    let mut started = false;
    let mut i: usize = 0;
    while i < n
        invariant
            n == s@.len(),
            0 <= i <= n,
            s@ == blank_controls(raw@),
            words_from(s@, 0) == ws + words_from(s@, i as int),
            out@ == join_spaced(ws),
            started == (ws.len() > 0),
        decreases n - i,
    {
        let mut a = i;
        while a < n && white_space(s[a])
            invariant
                n == s@.len(),
                i <= a <= n,
                skip_ws(s@, a as int) == skip_ws(s@, i as int),
            decreases n - a,
        {
            a = a + 1;
        }
        if a == n {
            assert(words_from(s@, i as int) == Seq::<Seq<char>>::empty());
            i = n;
        } else {
            let mut b = a;
            while b < n && !white_space(s[b])
                invariant
                    n == s@.len(),
                    a <= b <= n,
                    next_ws(s@, b as int) == next_ws(s@, a as int),
                decreases n - b,
            {
                b = b + 1;
            }
            proof {
                lemma_next_ws_mono(s@, a as int);
            }
            let word = slice_of(&s, a, b);
            if started {
                out.push(' ');
            }
            push_all(&mut out, &word);
            proof {
                let w = s@.subrange(a as int, b as int);
                assert(words_from(s@, i as int) == seq![w] + words_from(s@, b as int));
                assert(ws + (seq![w] + words_from(s@, b as int)) =~= ws.push(w) + words_from(
                    s@,
                    b as int,
                ));
                if ws.len() > 0 {
                    assert(ws.push(w).drop_last() =~= ws);
                    assert(out@ =~= join_spaced(ws.push(w)));
                } else {
                    assert(ws.push(w).len() == 1);
                    assert(ws.push(w)[0] == w);
                    assert(out@ =~= w);
                }
                ws = ws.push(w);
            }
            started = true;
            i = b;
        }
    }
    assert(words_from(s@, n as int) == Seq::<Seq<char>>::empty());
    assert(ws + Seq::<Seq<char>>::empty() =~= ws);
    string_from(&out)
}

/// The banner to report, if any bytes were read.
pub fn banner_text(bytes: &[u8]) -> (r: Option<String>)
    ensures
        match r {
            Some(t) => bytes@.len() > 0 && t@ == sanitized(bytes@),
            None => bytes@.len() == 0,
        },
{
    if bytes.len() == 0 {
        None
    } else {
        Some(sanitize_banner(bytes))
    }
}

/// How many of `count` newly read bytes fit in a banner that holds `held` bytes.
pub open spec fn room(held: nat, count: nat) -> nat {
    if held >= MAX_BANNER_BYTES {
        0
    } else if count < MAX_BANNER_BYTES - held {
        count
    } else {
        (MAX_BANNER_BYTES - held) as nat
    }
}

/// How many of `count` newly read bytes to keep in a banner that holds `held` bytes.
pub fn banner_room(held: usize, count: usize) -> (r: usize)
    ensures
        r == room(held as nat, count as nat),
{
    if held >= MAX_BANNER_BYTES {
        0
    } else if count < MAX_BANNER_BYTES - held {
        count
    } else {
        MAX_BANNER_BYTES - held
    }
}

/// A banner never grows past the cap: of `count` new bytes at most the room left is kept,
/// and no more than arrived.
pub proof fn banner_stays_within_the_cap(held: nat, count: nat)
    requires
        held <= MAX_BANNER_BYTES,
    ensures
        held + room(held, count) <= MAX_BANNER_BYTES,
        room(held, count) <= count,
        held + count <= MAX_BANNER_BYTES ==> room(held, count) == count,
{
}

// ---------------------------------------------------------------- fingerprinting steps

/// The text of an optional string equals the given name.
pub open spec fn names(o: Option<Seq<char>>, name: Seq<char>) -> bool {
    o == Some(name)
}

/// After the passive read, an HTTP probe is worth sending when the service is unknown or
/// HTTP(S) and no product was found.
pub open spec fn wants_http_probe(fp: FingerprintView) -> bool {
    (fp.0 is None || names(fp.0, "http"@) || names(fp.0, "https"@)) && (fp.0 is None
        || fp.1 is None)
}

fn is_name(o: &Option<String>, name: &str) -> (r: bool)
    ensures
        r == names(opt_text(*o), name@),
{
    match o {
        Some(s) => crate::text::chars_eq(&chars_of(s.as_str()), &chars_of(name)),
        None => false,
    }
}

/// Whether to send the HTTP probe after the passive read gave `fp`.
pub fn needs_http_probe(fp: &Fingerprint) -> (r: bool)
    ensures
        r == wants_http_probe(fp@),
{
    let candidate = fp.service.is_none() || is_name(&fp.service, "http") || is_name(
        &fp.service,
        "https",
    );
    candidate && (!fp.is_identified() || fp.product.is_none())
}

/// The probe request: `HEAD / HTTP/1.0` naming the host.
pub open spec fn probe_request(host: Seq<char>) -> Seq<char> {
    "HEAD / HTTP/1.0\r\nHost: "@ + host + "\r\nUser-Agent: Pscan/2\r\n\r\n"@
}

/// The HTTP probe request for `host`.
pub fn http_probe_request(host: &str) -> (r: String)
    ensures
        r@ == probe_request(host@),
{
    let mut m = chars_of("HEAD / HTTP/1.0\r\nHost: ");
    push_all(&mut m, &chars_of(host));
    push_all(&mut m, &chars_of("\r\nUser-Agent: Pscan/2\r\n\r\n"));
    string_from(&m)
}

/// The probe's answer replaces the passive result only when it identifies HTTP(S).
pub fn adopt_probe(passive: Fingerprint, probed: Fingerprint) -> (r: Fingerprint)
    ensures
        r@ == if names(probed@.0, "http"@) || names(probed@.0, "https"@) {
            probed@
        } else {
            passive@
        },
{
    if is_name(&probed.service, "http") || is_name(&probed.service, "https") {
        probed
    } else {
        passive
    }
}

/// A result that names no service falls back to the port's conventional service.
pub fn settle_fingerprint(result: Fingerprint, port: u16) -> (r: Fingerprint)
    ensures
        r@ == if result@.0 is Some {
            result@
        } else {
            port_fingerprint(port)
        },
{
    if result.is_identified() {
        result
    } else {
        port_fallback(port)
    }
}

// ---------------------------------------------------------------- records

/// The record of a TCP port that accepted the connection.
pub fn open_tcp(
    host: String,
    ip: String,
    port: u16,
    latency_ms: u64,
    fingerprint: Fingerprint,
    banner: Option<String>,
) -> (r: ScanResult)
    ensures
        r.kind@ == "scan"@,
        r.host == host && r.ip == ip && r.port == port && r.latency_ms == latency_ms,
        r.open,
        r.transport == Transport::Tcp,
        r.udp_state is None,
        r.service == fingerprint.service && r.product == fingerprint.product && r.version
            == fingerprint.version,
        r.banner == banner && r.error is None,
{
    ScanResult {
        kind: "scan",
        host,
        ip,
        port,
        open: true,
        latency_ms,
        transport: Transport::Tcp,
        udp_state: None,
        service: fingerprint.service,
        product: fingerprint.product,
        version: fingerprint.version,
        banner,
        error: None,
    }
}

/// The record of a TCP port that refused or did not answer, with the reason.
pub fn closed_tcp(host: String, ip: String, port: u16, latency_ms: u64, error: String) -> (r:
    ScanResult)
    ensures
        r.kind@ == "scan"@,
        r.host == host && r.ip == ip && r.port == port && r.latency_ms == latency_ms,
        !r.open,
        r.transport == Transport::Tcp,
        r.udp_state is None,
        r.service is None && r.product is None && r.version is None && r.banner is None,
        r.error == Some(error),
{
    ScanResult {
        kind: "scan",
        host,
        ip,
        port,
        open: false,
        latency_ms,
        transport: Transport::Tcp,
        udp_state: None,
        service: None,
        product: None,
        version: None,
        banner: None,
        error: Some(error),
    }
}

/// The record of a UDP probe: open unless closed, with the port's conventional service.
pub fn udp_result(
    host: String,
    ip: String,
    port: u16,
    latency_ms: u64,
    state: UdpState,
    banner: Option<String>,
    error: Option<String>,
) -> (r: ScanResult)
    ensures
        r.kind@ == "scan"@,
        r.host == host && r.ip == ip && r.port == port && r.latency_ms == latency_ms,
        r.open == (state != UdpState::Closed),
        r.transport == Transport::Udp,
        r.udp_state == Some(state),
        opt_text(r.service) == port_service(port),
        r.product is None && r.version is None,
        r.banner == banner && r.error == error,
{
    let service = match service_for_port(port) {
        Some(name) => Some(String::from_str(name)),
        None => None,
    };
    ScanResult {
        kind: "scan",
        host,
        ip,
        port,
        open: state != UdpState::Closed,
        latency_ms,
        transport: Transport::Udp,
        udp_state: Some(state),
        service,
        product: None,
        version: None,
        banner,
        error,
    }
}

/// What came of a UDP probe.
pub enum UdpOutcome {
    /// The socket could not be bound, connected or sent on; the text says why.
    Unsent(String),
    /// The target replied with these bytes.
    Replied(Vec<u8>),
    /// The kernel reported the port unreachable (connection refused).
    Refused(String),
    /// Receiving failed for another reason.
    Failed(String),
    /// Nothing arrived before the timeout.
    Silent,
}

/// The state a UDP outcome shows: a reply means open, a refusal or a failure to send
/// means closed, anything else is inconclusive.
pub open spec fn outcome_state(o: UdpOutcome) -> UdpState {
    match o {
        UdpOutcome::Unsent(_) => UdpState::Closed,
        UdpOutcome::Replied(_) => UdpState::Open,
        UdpOutcome::Refused(_) => UdpState::Closed,
        UdpOutcome::Failed(_) => UdpState::OpenOrFiltered,
        UdpOutcome::Silent => UdpState::OpenOrFiltered,
    }
}

/// The record of a UDP probe from its outcome.
pub fn udp_outcome_result(host: String, ip: String, port: u16, latency_ms: u64, outcome: UdpOutcome) -> (r:
    ScanResult)
    ensures
        r.kind@ == "scan"@,
        r.host == host && r.ip == ip && r.port == port && r.latency_ms == latency_ms,
        r.udp_state == Some(outcome_state(outcome)),
        r.open == (outcome_state(outcome) != UdpState::Closed),
        r.transport == Transport::Udp,
        opt_text(r.service) == port_service(port),
        r.product is None && r.version is None,
        match outcome {
            UdpOutcome::Replied(bytes) => r.error is None && match r.banner {
                Some(b) => bytes@.len() > 0 && b@ == sanitized(bytes@),
                None => bytes@.len() == 0,
            },
            UdpOutcome::Unsent(e) => r.banner is None && r.error == Some(e),
            UdpOutcome::Refused(e) => r.banner is None && r.error == Some(e),
            UdpOutcome::Failed(e) => r.banner is None && r.error == Some(e),
            UdpOutcome::Silent => r.banner is None && r.error is None,
        },
{
    match outcome {
        UdpOutcome::Unsent(e) => udp_result(host, ip, port, latency_ms, UdpState::Closed, None, Some(e)),
        UdpOutcome::Replied(bytes) => {
            let banner = banner_text(&bytes);
            udp_result(host, ip, port, latency_ms, UdpState::Open, banner, None)
        },
        UdpOutcome::Refused(e) => udp_result(host, ip, port, latency_ms, UdpState::Closed, None, Some(e)),
        UdpOutcome::Failed(e) => udp_result(
            host,
            ip,
            port,
            latency_ms,
            UdpState::OpenOrFiltered,
            None,
            Some(e),
        ),
        UdpOutcome::Silent => udp_result(
            host,
            ip,
            port,
            latency_ms,
            UdpState::OpenOrFiltered,
            None,
            None,
        ),
    }
}

/// The record of a target that answered host discovery by `method`.
pub fn host_alive(host: String, ip: String, latency_ms: u64, method: String) -> (r:
    HostDiscoveryResult)
    ensures
        r.kind@ == "host"@,
        r.host == host && r.ip == ip && r.latency_ms == latency_ms,
        r.state == HostState::Alive,
        r.method == method,
{
    HostDiscoveryResult { kind: "host", host, ip, state: HostState::Alive, method, latency_ms }
}

/// The record of a target that gave no answer to host discovery.
pub fn host_unknown(host: String, ip: String, latency_ms: u64) -> (r: HostDiscoveryResult)
    ensures
        r.kind@ == "host"@,
        r.host == host && r.ip == ip && r.latency_ms == latency_ms,
        r.state == HostState::Unknown,
        r.method@ == "no-response"@,
{
    HostDiscoveryResult {
        kind: "host",
        host,
        ip,
        state: HostState::Unknown,
        method: String::from_str("no-response"),
        latency_ms,
    }
}

/// The discovery method for a TCP connect to `port`: `tcp/<port>`, with `-refused` when
/// the connection was refused (which still shows the host is up).
pub fn tcp_method(port: u16, refused: bool) -> (r: String)
    ensures
        r@ == "tcp/"@ + decimal(port as nat) + if refused {
            "-refused"@
        } else {
            Seq::empty()
        },
{
    let mut m = chars_of("tcp/");
    push_decimal(&mut m, port as u64);
    if refused {
        push_all(&mut m, &chars_of("-refused"));
    }
    let ghost expected = "tcp/"@ + decimal(port as nat) + if refused {
        "-refused"@
    } else {
        Seq::empty()
    };
    assert(m@ =~= expected);
    string_from(&m)
}

/// The ICMP identifier for an address: the wrapping sum of its octets (IPv4) or 16-bit
/// groups (IPv6).
pub open spec fn wrapping_sum(parts: Seq<u16>) -> nat
    decreases parts.len(),
{
    if parts.len() == 0 {
        0
    } else {
        (wrapping_sum(parts.drop_last()) + parts.last() as nat) % 0x10000
    }
}

fn wrapping_total(parts: &[u16]) -> (r: u16)
    ensures
        r == wrapping_sum(parts@),
{
    let mut acc: u16 = 0;
    let mut i: usize = 0;
    while i < parts.len()
        invariant
            0 <= i <= parts@.len(),
            acc == wrapping_sum(parts@.subrange(0, i as int)),
        decreases parts@.len() - i,
    {
        assert(parts@.subrange(0, i + 1).drop_last() =~= parts@.subrange(0, i as int));
        acc = ((acc as u32 + parts[i] as u32) % 0x10000) as u16;
        i = i + 1;
    }
    assert(parts@.subrange(0, parts@.len() as int) =~= parts@);
    acc
}

/// The parts an identifier is summed from: the four octets of an IPv4 address, the eight
/// groups of an IPv6 one.
pub open spec fn address_parts(a: IpAddress) -> Seq<u16> {
    match a {
        IpAddress::V4(v) => seq![
            (v / 0x1000000) as u16,
            ((v / 0x10000) % 0x100) as u16,
            ((v / 0x100) % 0x100) as u16,
            (v % 0x100) as u16,
        ],
        IpAddress::V6(b) => address_groups(b),
    }
}

/// The ICMP identifier for pinging `ip`.
pub fn host_identifier(ip: IpAddress) -> (r: u16)
    ensures
        r == wrapping_sum(address_parts(ip)),
{
    match ip {
        IpAddress::V4(v) => {
            let parts: Vec<u16> = vec![
                (v / 0x1000000) as u16,
                ((v / 0x10000) % 0x100) as u16,
                ((v / 0x100) % 0x100) as u16,
                (v % 0x100) as u16,
            ];
            assert(parts@ =~= address_parts(ip));
            wrapping_total(&parts)
        },
        IpAddress::V6(b) => {
            let parts = groups_vec(b);
            wrapping_total(&parts)
        },
    }
}

// ---------------------------------------------------------------- connect outcomes

/// What a TCP connect to a scanned port gave.
pub enum TcpOutcome {
    /// The port accepted; the fingerprint and banner are what service detection found.
    Connected(Fingerprint, Option<String>),
    /// The connect failed; the text says why.
    Failed(String),
    /// No answer came before the timeout.
    TimedOut,
}

/// The record of a TCP scan of `port` from the connect's outcome: open with what service
/// detection found, or closed with the failure, a timeout reading `connection timed out`.
pub fn tcp_outcome_result(host: String, ip: String, port: u16, latency_ms: u64, outcome: TcpOutcome) -> (r:
    ScanResult)
    ensures
        r.kind@ == "scan"@,
        r.host == host && r.ip == ip && r.port == port && r.latency_ms == latency_ms,
        r.transport == Transport::Tcp,
        r.udp_state is None,
        match outcome {
            TcpOutcome::Connected(fp, banner) => {
                &&& r.open
                &&& r.service == fp.service && r.product == fp.product && r.version == fp.version
                &&& r.banner == banner && r.error is None
            },
            TcpOutcome::Failed(e) => {
                &&& !r.open
                &&& r.service is None && r.product is None && r.version is None
                &&& r.banner is None && r.error == Some(e)
            },
            TcpOutcome::TimedOut => {
                &&& !r.open
                &&& r.service is None && r.product is None && r.version is None
                &&& r.banner is None
                &&& r.error matches Some(e) && e@ == "connection timed out"@
            },
        },
{
    match outcome {
        TcpOutcome::Connected(fp, banner) => open_tcp(host, ip, port, latency_ms, fp, banner),
        TcpOutcome::Failed(e) => closed_tcp(host, ip, port, latency_ms, e),
        TcpOutcome::TimedOut => closed_tcp(
            host,
            ip,
            port,
            latency_ms,
            String::from_str("connection timed out"),
        ),
    }
}

// ---------------------------------------------------------------- host discovery

/// What a discovery connect to one of the fallback ports gave.
#[derive(Debug, Clone, Copy, PartialEq, Eq, Structural)]
pub enum ConnectOutcome {
    /// The port accepted the connection.
    Connected,
    /// The host refused the connection, which still shows it is up.
    Refused,
    /// Any other failure, or no answer before the timeout.
    NoAnswer,
}

/// The next move of host discovery: try the fallback port at this index, or report.
pub enum DiscoveryAction {
    Connect(usize),
    Report(HostDiscoveryResult),
}

/// `h` reports `t` with the given state, method and latency.
pub open spec fn reports(
    h: HostDiscoveryResult,
    t: ResolvedTarget,
    state: HostState,
    method: Seq<char>,
    latency_ms: u64,
) -> bool {
    &&& h.kind@ == "host"@
    &&& h.host@ == t.host@
    &&& h.ip@ == address_text(t.ip)
    &&& h.state == state
    &&& h.method@ == method
    &&& h.latency_ms == latency_ms
}

fn report(target: &ResolvedTarget, state: HostState, method: String, latency_ms: u64) -> (r:
    DiscoveryAction)
    ensures
        r matches DiscoveryAction::Report(h) && reports(h, *target, state, method@, latency_ms),
{
    DiscoveryAction::Report(HostDiscoveryResult {
        kind: "host",
        host: target.host.clone(),
        ip: target.ip.to_text(),
        state,
        method,
        latency_ms,
    })
}

/// The first move of host discovery: an ICMP echo answer (its latency in `ping_ms`)
/// shows the host alive; otherwise the fallback ports are tried in order, and with none
/// the host is reported without a response.
pub fn discovery_start(target: &ResolvedTarget, ping_ms: Option<u64>, ports: &[u16], elapsed_ms: u64) -> (r:
    DiscoveryAction)
    ensures
        match ping_ms {
            Some(ms) => r matches DiscoveryAction::Report(h) && reports(
                h,
                *target,
                HostState::Alive,
                "icmp"@,
                ms,
            ),
            None => if ports@.len() > 0 {
                r matches DiscoveryAction::Connect(k) && k == 0
            } else {
                r matches DiscoveryAction::Report(h) && reports(
                    h,
                    *target,
                    HostState::Unknown,
                    "no-response"@,
                    elapsed_ms,
                )
            },
        },
{
    match ping_ms {
        Some(ms) => report(target, HostState::Alive, String::from_str("icmp"), ms),
        None => if ports.len() > 0 {
            DiscoveryAction::Connect(0)
        } else {
            report(target, HostState::Unknown, String::from_str("no-response"), elapsed_ms)
        },
    }
}

/// The move after trying fallback port `tried`: a connection or a refusal shows the host
/// alive (`tcp/<port>`, with `-refused` for a refusal); otherwise the next port is tried,
/// and after the last one the host is reported without a response.
pub fn discovery_step(
    target: &ResolvedTarget,
    ports: &[u16],
    tried: usize,
    outcome: ConnectOutcome,
    elapsed_ms: u64,
) -> (r: DiscoveryAction)
    requires
        tried < ports@.len(),
    ensures
        match outcome {
            ConnectOutcome::NoAnswer => if tried + 1 < ports@.len() {
                r matches DiscoveryAction::Connect(k) && k == tried + 1
            } else {
                r matches DiscoveryAction::Report(h) && reports(
                    h,
                    *target,
                    HostState::Unknown,
                    "no-response"@,
                    elapsed_ms,
                )
            },
            _ => r matches DiscoveryAction::Report(h) && reports(
                h,
                *target,
                HostState::Alive,
                "tcp/"@ + decimal(ports@[tried as int] as nat) + if outcome
                    == ConnectOutcome::Refused {
                    "-refused"@
                } else {
                    Seq::empty()
                },
                elapsed_ms,
            ),
        },
{
    match outcome {
        ConnectOutcome::NoAnswer => if tried < ports.len() - 1 {
            DiscoveryAction::Connect(tried + 1)
        } else {
            report(target, HostState::Unknown, String::from_str("no-response"), elapsed_ms)
        },
        ConnectOutcome::Connected => report(
            target,
            HostState::Alive,
            tcp_method(ports[tried], false),
            elapsed_ms,
        ),
        ConnectOutcome::Refused => report(
            target,
            HostState::Alive,
            tcp_method(ports[tried], true),
            elapsed_ms,
        ),
    }
}

// ---------------------------------------------------------------- name resolution

/// A target name and one address it resolved to.
#[derive(Debug, Clone)]
pub struct ResolvedTarget {
    pub host: String,
    pub ip: IpAddress,
}

/// The addresses of resolved targets.
pub open spec fn addresses(v: Seq<ResolvedTarget>) -> Seq<IpAddress> {
    v.map_values(|t: ResolvedTarget| t.ip)
}

/// `v` is in strictly increasing address order.
pub open spec fn ascending(v: Seq<IpAddress>) -> bool {
    forall|i: int, j: int| 0 <= i < j < v.len() ==> address_key(v[i]) < address_key(v[j])
}

/// The target for a name that is itself an address, which needs no lookup; otherwise the
/// name is handed back.
pub fn literal_target(host: String) -> (r: std::result::Result<ResolvedTarget, String>)
    ensures
        match address_of(host@) {
            Some(a) => r matches Ok(t) && t.host@ == host@ && t.ip == a,
            None => r matches Err(h) && h@ == host@,
        },
{
    match parse_address(host.as_str()) {
        Some(ip) => Ok(ResolvedTarget { host, ip }),
        None => Err(host),
    }
}

/// The addresses of `found` in increasing order, each once (a sort followed by a dedup).
pub fn sorted_addresses(found: &Vec<IpAddress>) -> (r: Vec<IpAddress>)
    ensures
        ascending(r@),
        forall|a: IpAddress| found@.contains(a) <==> r@.contains(a),
{
    let mut out: Vec<IpAddress> = Vec::new();
    let mut n: usize = 0;
    while n < found.len()
        invariant
            0 <= n <= found@.len(),
            ascending(out@),
            forall|a: IpAddress| found@.subrange(0, n as int).contains(a) <==> out@.contains(a),
        decreases found@.len() - n,
    {
        let x = found[n];
        let mut k: usize = 0;
        while k < out.len() && address_less(out[k], x)
            invariant
                0 <= k <= out@.len(),
                forall|i: int| 0 <= i < k ==> address_key(#[trigger] out@[i]) < address_key(x),
            decreases out@.len() - k,
        {
            k = k + 1;
        }
        let ghost before = out@;
        let ghost prefix = found@.subrange(0, n as int);
        assert(found@.subrange(0, n + 1) =~= prefix.push(x));
        if k < out.len() && out[k] == x {
            assert forall|a: IpAddress| prefix.push(x).contains(a) <==> before.contains(a) by {
                assert(prefix.contains(a) <==> before.contains(a));
                if a == x {
                    assert(before[k as int] == a);
                    assert(prefix.push(x)[prefix.len() as int] == a);
                } else if prefix.push(x).contains(a) {
                    let w = choose|w: int| 0 <= w < prefix.push(x).len() && prefix.push(x)[w] == a;
                    assert(prefix[w] == a);
                } else if prefix.contains(a) {
                    let w = choose|w: int| 0 <= w < prefix.len() && prefix[w] == a;
                    assert(prefix.push(x)[w] == a);
                }
            }
        } else {
            proof {
                if k < before.len() {
                    assert(address_key(before[k as int]) >= address_key(x));
                    assert(before[k as int] != x);
                    assert(address_key(before[k as int]) != address_key(x));
                }
            }
            out.insert(k, x);
            proof {
                let after = out@;
                assert(after =~= before.insert(k as int, x));
                assert forall|i: int, j: int| 0 <= i < j < after.len() implies address_key(
                    #[trigger] after[i],
                ) < address_key(#[trigger] after[j]) by {
                    if j < k {
                        assert(after[i] == before[i] && after[j] == before[j]);
                    } else if j == k {
                        assert(after[i] == before[i]);
                    } else if i == k {
                        assert(after[j] == before[j - 1]);
                        assert(address_key(before[k as int]) <= address_key(before[j - 1]));
                    } else if i < k {
                        assert(after[i] == before[i] && after[j] == before[j - 1]);
                        assert(address_key(before[k as int]) <= address_key(before[j - 1]));
                    } else {
                        assert(after[i] == before[i - 1] && after[j] == before[j - 1]);
                    }
                }
                assert forall|a: IpAddress| prefix.push(x).contains(a) <==> after.contains(a) by {
                    assert(prefix.contains(a) <==> before.contains(a));
                    if a == x {
                        assert(after[k as int] == a);
                        assert(prefix.push(x)[prefix.len() as int] == a);
                    } else {
                        if after.contains(a) {
                            let w = choose|w: int| 0 <= w < after.len() && after[w] == a;
                            if w < k {
                                assert(before[w] == a);
                            } else {
                                assert(before[w - 1] == a);
                            }
                            let v = choose|v: int| 0 <= v < prefix.len() && prefix[v] == a;
                            assert(prefix.push(x)[v] == a);
                        }
                        if prefix.push(x).contains(a) {
                            let w = choose|w: int| 0 <= w < prefix.push(x).len() && prefix.push(x)[w] == a;
                            assert(prefix[w] == a);
                            let v = choose|v: int| 0 <= v < before.len() && before[v] == a;
                            if v < k {
                                assert(after[v] == a);
                            } else {
                                assert(after[v + 1] == a);
                            }
                        }
                    }
                }
            }
        }
        n = n + 1;
    }
    assert(found@.subrange(0, found@.len() as int) =~= found@);
    out
}

/// What looking up a name gave.
pub enum LookupOutcome {
    /// The lookup answered with these addresses.
    Found(Vec<IpAddress>),
    /// The lookup failed; the text says why.
    Failed(String),
    /// No answer came before the timeout.
    TimedOut,
}

/// A resolution failure for `host` with the message `m`.
pub open spec fn failure_is(f: Option<(String, String)>, host: Seq<char>, m: Seq<char>) -> bool {
    f matches Some((h, t)) && h@ == host && t@ == m
}

/// The targets a lookup of `host` gives, one per distinct address in increasing order, or
/// the failure to report: no address, a failed lookup, or a timeout.
pub fn resolution(host: String, outcome: LookupOutcome) -> (r: (Vec<ResolvedTarget>, Option<(String, String)>))
    ensures
        match outcome {
            LookupOutcome::Found(found) => if found@.len() == 0 {
                r.0@.len() == 0 && failure_is(r.1, host@, "resolve returned no addresses"@)
            } else {
                &&& r.1 is None
                &&& ascending(addresses(r.0@))
                &&& forall|a: IpAddress| found@.contains(a) <==> addresses(r.0@).contains(a)
                &&& forall|i: int| 0 <= i < r.0@.len() ==> (#[trigger] r.0@[i]).host@ == host@
            },
            LookupOutcome::Failed(e) => r.0@.len() == 0 && failure_is(r.1, host@, "resolve failed: "@ + e@),
            LookupOutcome::TimedOut => r.0@.len() == 0 && failure_is(r.1, host@, "resolve timed out"@),
        },
{
    match outcome {
        LookupOutcome::Found(found) => {
            if found.len() == 0 {
                return (Vec::new(), Some((host, String::from_str("resolve returned no addresses"))));
            }
            let ips = sorted_addresses(&found);
            let mut out: Vec<ResolvedTarget> = Vec::new();
            let mut i: usize = 0;
            while i < ips.len()
                invariant
                    0 <= i <= ips@.len(),
                    out@.len() == i,
                    forall|m: int| 0 <= m < i ==> (#[trigger] out@[m]).ip == ips@[m] && out@[m].host@ == host@,
                decreases ips@.len() - i,
            {
                out.push(ResolvedTarget { host: host.clone(), ip: ips[i] });
                i = i + 1;
            }
            assert(addresses(out@) =~= ips@);
            (out, None)
        },
        LookupOutcome::Failed(e) => {
            let mut m = String::from_str("resolve failed: ");
            m.append(e.as_str());
            (Vec::new(), Some((host, m)))
        },
        LookupOutcome::TimedOut => (Vec::new(), Some((host, String::from_str("resolve timed out")))),
    }
}

/// How many lookups run at once: one per target, at least one and at most 64.
pub fn resolve_concurrency(targets: usize) -> (r: usize)
    ensures
        r == if targets < 1 {
            1
        } else if targets > 64 {
            64
        } else {
            targets
        },
{
    if targets < 1 {
        1
    } else if targets > 64 {
        64
    } else {
        targets
    }
}

// ---------------------------------------------------------------- scheduling

/// The jobs of a scan of `n` targets: the first target with every port in order, then the
/// second, and so on; a job names its target by index.
pub open spec fn job_list(n: nat, ports: Seq<u16>) -> Seq<(usize, u16)>
    decreases n,
{
    if n == 0 {
        Seq::empty()
    } else {
        job_list((n - 1) as nat, ports) + ports.map_values(|p: u16| ((n - 1) as usize, p))
    }
}

/// The job after target `t` with port `j` in a scan of `n` targets over `m` ports: the
/// next port of the same target, else the first port of the next target, else none.
pub open spec fn following_job(t: int, j: int, n: int, m: int) -> Option<(int, int)> {
    if j + 1 < m {
        Some((t, j + 1))
    } else if t + 1 < n {
        Some((t + 1, 0))
    } else {
        None
    }
}

/// The first job of a scan of `targets` targets over `ports_len` ports, as indices of its
/// target and port; none when there is nothing to scan.
pub fn first_job(targets: usize, ports_len: usize) -> (r: Option<(usize, usize)>)
    ensures
        r == if targets > 0 && ports_len > 0 {
            Some((0usize, 0usize))
        } else {
            None
        },
{
    if targets > 0 && ports_len > 0 {
        Some((0, 0))
    } else {
        None
    }
}

/// The job after target `target` with port `port`.
pub fn next_job(target: usize, port: usize, targets: usize, ports_len: usize) -> (r: Option<
    (usize, usize),
>)
    requires
        target < targets,
        port < ports_len,
    ensures
        match following_job(target as int, port as int, targets as int, ports_len as int) {
            Some((t, j)) => r matches Some((a, b)) && a == t && b == j,
            None => r is None,
        },
{
    if port < ports_len - 1 {
        Some((target, port + 1))
    } else if target < targets - 1 {
        Some((target + 1, 0))
    } else {
        None
    }
}

/// When a paced job starts, and the slot it leaves for the next one: a job starts at the
/// reserved slot, or now if that has passed, and the next slot is one interval later.
pub open spec fn slot(next: u64, now: u64, interval: u64) -> (int, int) {
    let start = if next > now {
        next
    } else {
        now
    };
    (start as int, start + interval)
}

/// Reserves the start of the next paced job (times in any common unit, such as
/// nanoseconds since the pacer began).
pub fn next_slot(next: u64, now: u64, interval: u64) -> (r: (u64, u64))
    requires
        (if next > now {
            next
        } else {
            now
        }) + interval <= u64::MAX,
    ensures
        (r.0 as int, r.1 as int) == slot(next, now, interval),
{
    let start = if next > now {
        next
    } else {
        now
    };
    (start, start + interval)
}

/// How long the passive banner read waits at first, in milliseconds.
pub const PASSIVE_WAIT_MS: u64 = 180;

/// The wait of the passive read: the usual wait, cut short by a smaller fingerprint
/// budget.
pub fn passive_wait_ms(fingerprint_timeout_ms: u64) -> (r: u64)
    ensures
        r == if PASSIVE_WAIT_MS < fingerprint_timeout_ms {
            PASSIVE_WAIT_MS
        } else {
            fingerprint_timeout_ms
        },
{
    if PASSIVE_WAIT_MS < fingerprint_timeout_ms {
        PASSIVE_WAIT_MS
    } else {
        fingerprint_timeout_ms
    }
}

/// A duration in milliseconds as reported, capped at `u64::MAX`.
pub fn saturating_millis(ms: u128) -> (r: u64)
    ensures
        r == if ms > u64::MAX {
            u64::MAX as u128
        } else {
            ms
        },
{
    if ms > u64::MAX as u128 {
        u64::MAX
    } else {
        ms as u64
    }
}

// ---------------------------------------------------------------- laws

/// The HTTP probe is never sent to a service already identified as something other than
/// HTTP(S), such as SSH, SMTP or Redis.
pub proof fn no_http_probe_for_other_services(fp: FingerprintView)
    requires
        fp.0 matches Some(name) && name != "http"@ && name != "https"@,
    ensures
        !wants_http_probe(fp),
{
}

/// A scan pairs every target with every port, target by target and each target's ports in
/// the given order: `n * m` jobs, job `t * m + j` being target `t` with port `j`.
pub proof fn jobs_pair_every_target_with_every_port(n: nat, ports: Seq<u16>, t: int, j: int)
    requires
        n <= usize::MAX,
        0 <= t < n,
        0 <= j < ports.len(),
    ensures
        job_list(n, ports).len() == n * ports.len(),
        t * ports.len() + j < n * ports.len(),
        job_list(n, ports)[t * ports.len() + j] == (t as usize, ports[j]),
    decreases n,
{
    let m = ports.len() as int;
    lemma_job_list_len(n, ports);
    let prev = job_list((n - 1) as nat, ports);
    lemma_job_list_len((n - 1) as nat, ports);
    assert((n - 1) * m + m == n * m) by (nonlinear_arith);
    assert(t * m + j < (t + 1) * m) by (nonlinear_arith)
        requires
            j < m,
    ;
    if t < n - 1 {
        assert((t + 1) * m <= (n - 1) * m) by (nonlinear_arith)
            requires
                t + 1 <= n - 1,
                m >= 0,
        ;
        jobs_pair_every_target_with_every_port((n - 1) as nat, ports, t, j);
    } else {
        assert(t * m == (n - 1) * m);
    }
}

/// Stepping with `next_job` from the first job walks the scan's jobs in order: target
/// `t` with port `j` stands at position `t * m + j`, and the job that follows it stands
/// at the next position, the walk ending after the last.
pub proof fn next_job_walks_the_job_list(n: nat, ports: Seq<u16>, t: int, j: int)
    requires
        n <= usize::MAX,
        0 <= t < n,
        0 <= j < ports.len(),
    ensures
        job_list(n, ports)[t * ports.len() + j] == (t as usize, ports[j]),
        match following_job(t, j, n as int, ports.len() as int) {
            Some((t2, j2)) => {
                &&& 0 <= t2 < n
                &&& 0 <= j2 < ports.len()
                &&& t2 * ports.len() + j2 == t * ports.len() + j + 1
            },
            None => t * ports.len() + j + 1 == n * ports.len(),
        },
{
    let m = ports.len() as int;
    jobs_pair_every_target_with_every_port(n, ports, t, j);
    if j + 1 < m {
    } else if t + 1 < n {
        assert((t + 1) * m == t * m + m) by (nonlinear_arith);
    } else {
        assert((t + 1) * m == t * m + m) by (nonlinear_arith);
        assert(t + 1 == n);
    }
}

proof fn lemma_job_list_len(n: nat, ports: Seq<u16>)
    ensures
        job_list(n, ports).len() == n * ports.len(),
    decreases n,
{
    if n > 0 {
        lemma_job_list_len((n - 1) as nat, ports);
        let row = ports.map_values(|p: u16| ((n - 1) as usize, p));
        assert(row.len() == ports.len());
        assert(job_list(n, ports) == job_list((n - 1) as nat, ports) + row);
        assert((n - 1) * ports.len() + ports.len() == n * ports.len()) by (nonlinear_arith);
    } else {
        assert(n * ports.len() == 0) by (nonlinear_arith)
            requires
                n == 0,
        ;
    }
}

/// Paced jobs start no earlier than they are asked to, and each starts at least one
/// interval after the one before it.
pub proof fn paced_starts_are_spaced(next: u64, first_now: u64, second_now: u64, interval: u64)
    requires
        slot(next, first_now, interval).1 <= u64::MAX,
    ensures
        slot(next, first_now, interval).0 >= first_now,
        slot(slot(next, first_now, interval).1 as u64, second_now, interval).0 >= second_now,
        slot(slot(next, first_now, interval).1 as u64, second_now, interval).0 >= slot(
            next,
            first_now,
            interval,
        ).0 + interval,
{
}

/// A character a sanitized banner may hold: a space, or a character that is neither white
/// space nor a control character.
pub open spec fn banner_char(c: char) -> bool {
    c == ' ' || (!is_white_space(c) && !is_control(c))
}

proof fn lemma_next_ws_run(s: Seq<char>, i: int)
    requires
        0 <= i <= s.len(),
    ensures
        forall|m: int| i <= m < next_ws(s, i) ==> !is_white_space(#[trigger] s[m]),
    decreases s.len() - i,
{
    if i < s.len() && !is_white_space(s[i]) {
        lemma_next_ws_run(s, i + 1);
    }
}

/// A character a word of shown text may hold: neither white space nor a control character.
pub open spec fn word_char(c: char) -> bool {
    !is_white_space(c) && !is_control(c)
}

proof fn lemma_words_are_clean(s: Seq<char>, i: int)
    requires
        0 <= i <= s.len(),
        forall|m: int| 0 <= m < s.len() && !is_white_space(#[trigger] s[m]) ==> !is_control(s[m]),
    ensures
        forall|j: int| 0 <= j < words_from(s, i).len() ==> (#[trigger] words_from(s, i)[j]).len() > 0,
        forall|j: int, k: int|
            0 <= j < words_from(s, i).len() && 0 <= k < words_from(s, i)[j].len() ==> word_char(
                #[trigger] words_from(s, i)[j][k],
            ),
    decreases s.len() - i,
{
    let a = skip_ws(s, i);
    lemma_skip_ws_mono(s, i);
    if a < s.len() {
        let b = next_ws(s, a);
        lemma_next_ws_mono(s, a);
        lemma_next_ws_run(s, a);
        lemma_words_are_clean(s, b);
        let w = s.subrange(a, b);
        let ws = words_from(s, i);
        assert(ws == seq![w] + words_from(s, b));
        assert forall|j: int| 0 <= j < ws.len() implies (#[trigger] ws[j]).len() > 0 by {
            if j > 0 {
                assert(ws[j] == words_from(s, b)[j - 1]);
            }
        }
        assert forall|j: int, k: int| 0 <= j < ws.len() && 0 <= k < ws[j].len() implies word_char(
            #[trigger] ws[j][k],
        ) by {
            if j == 0 {
                assert(ws[j][k] == s[a + k]);
            } else {
                assert(ws[j] == words_from(s, b)[j - 1]);
            }
        }
    }
}

/// Shown text is clean: every character is a space or a word character, spaces stand
/// alone, and there is none at either end.
pub open spec fn clean(t: Seq<char>) -> bool {
    &&& forall|k: int| 0 <= k < t.len() ==> banner_char(#[trigger] t[k])
    &&& forall|k: int| 0 <= k < t.len() - 1 ==> !(#[trigger] t[k] == ' ' && t[k + 1] == ' ')
    &&& t.len() > 0 ==> word_char(t[0]) && word_char(t.last())
}

proof fn lemma_join_is_clean(ws: Seq<Seq<char>>)
    requires
        forall|j: int| 0 <= j < ws.len() ==> (#[trigger] ws[j]).len() > 0,
        forall|j: int, k: int| 0 <= j < ws.len() && 0 <= k < ws[j].len() ==> word_char(#[trigger] ws[j][k]),
    ensures
        clean(join_spaced(ws)),
    decreases ws.len(),
{
    if ws.len() == 1 {
        let t = join_spaced(ws);
        assert(t == ws[0]);
        assert forall|k: int| 0 <= k < t.len() implies banner_char(#[trigger] t[k]) by {
            assert(word_char(ws[0][k]));
        }
        assert forall|k: int| 0 <= k < t.len() - 1 implies !(#[trigger] t[k] == ' ' && t[k + 1]
            == ' ') by {
            assert(word_char(ws[0][k]));
        }
        assert(word_char(ws[0][0]));
        assert(word_char(ws[0][t.len() - 1]));
    } else if ws.len() > 1 {
        let q = ws.drop_last();
        assert forall|j: int| 0 <= j < q.len() implies (#[trigger] q[j]).len() > 0 by {
            assert(q[j] == ws[j]);
        }
        assert forall|j: int, k: int| 0 <= j < q.len() && 0 <= k < q[j].len() implies word_char(
            #[trigger] q[j][k],
        ) by {
            assert(q[j] == ws[j]);
        }
        lemma_join_is_clean(q);
        let a = join_spaced(q);
        let w = ws[ws.len() - 1];
        let t = join_spaced(ws);
        assert(t == a + seq![' '] + ws.last());
        assert(ws.last() == w);
        assert(w.len() > 0);
        assert(q[0].len() > 0);
        lemma_join_nonempty(q);
        assert forall|k: int| 0 <= k < t.len() implies banner_char(#[trigger] t[k]) by {
            if k < a.len() {
                assert(t[k] == a[k]);
            } else if k > a.len() {
                assert(t[k] == w[k - a.len() - 1]);
                assert(word_char(w[k - a.len() - 1]));
            }
        }
        assert forall|k: int| 0 <= k < t.len() - 1 implies !(#[trigger] t[k] == ' ' && t[k + 1]
            == ' ') by {
            if k < a.len() - 1 {
                assert(t[k] == a[k] && t[k + 1] == a[k + 1]);
            } else if k == a.len() - 1 {
                assert(t[k] == a.last());
            } else if k == a.len() {
                assert(t[k + 1] == w[0]);
                assert(word_char(w[0]));
            } else {
                assert(t[k] == w[k - a.len() - 1]);
                assert(word_char(w[k - a.len() - 1]));
            }
        }
        assert(t[0] == a[0]);
        assert(t.last() == w[w.len() - 1]);
        assert(word_char(w[w.len() - 1]));
    }
}

proof fn lemma_join_nonempty(ws: Seq<Seq<char>>)
    requires
        ws.len() > 0,
        ws[0].len() > 0,
    ensures
        join_spaced(ws).len() > 0,
    decreases ws.len(),
{
    if ws.len() > 1 {
        let q = ws.drop_last();
        assert(q[0] == ws[0]);
        lemma_join_nonempty(q);
    }
}

/// Text as shown, banners included, holds no control character, its only white space is
/// the plain space, never two in a row and never at either end, whatever a service sent.
pub proof fn shown_text_is_clean(t: Seq<char>)
    ensures
        clean(clean_text(t)),
{
    let s = blank_controls(t);
    assert forall|m: int| 0 <= m < s.len() && !is_white_space(#[trigger] s[m]) implies !is_control(s[m]) by {
        let c = t[m];
        if is_control(c) && c != '\t' {
            assert(s[m] == ' ');
        } else {
            assert(s[m] == c);
        }
    }
    lemma_words_are_clean(s, 0);
    lemma_join_is_clean(words_from(s, 0));
}

} // verus!
