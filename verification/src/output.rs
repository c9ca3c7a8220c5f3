//! Rendering of scan and discovery records as text, and the running summary.
use vstd::prelude::*;
use crate::ip::{
    address_groups, address_text, groups_of_bits, hex_char, hex_text, ipv4_display, ipv6_display, join_hex,
    lemma_ipv4_text_chars, longest_zeros_from, push_hex, IpAddress,
};
use crate::scanner::{HostDiscoveryResult, HostState, ScanResult, Transport, UdpState};
use crate::text::{
    chars_eq, chars_of, contains, contains_chars, decimal, is_digit, pad_left, pad_right, push_all,
    push_decimal, push_pad_left, push_pad_right, string_from,
};

verus! {

pub const RESET: &'static str = "\x1b[0m";
pub const BOLD: &'static str = "\x1b[1m";
pub const DIM: &'static str = "\x1b[2m";
pub const RED: &'static str = "\x1b[31m";
pub const GREEN: &'static str = "\x1b[32m";
pub const YELLOW: &'static str = "\x1b[33m";
pub const CYAN: &'static str = "\x1b[36m";

/// How records are written.
#[derive(Debug, Clone, Copy, PartialEq, Eq, Structural)]
pub enum OutputFormat {
    /// Aligned, optionally coloured lines for people.
    Text,
    /// One JSON object per line.
    Jsonl,
}

/// Whether text output is coloured.
#[derive(Debug, Clone, Copy, PartialEq, Eq, Structural)]
pub enum ColorMode {
    /// When writing to a terminal and `NO_COLOR` is unset.
    Auto,
    Always,
    Never,
}

/// Counts of what was written.
#[derive(Debug, Clone, Copy, PartialEq, Eq, Structural)]
pub struct OutputSummary {
    pub scanned: u64,
    pub open: u64,
    pub closed: u64,
    pub uncertain: u64,
    pub errors: u64,
    pub hosts_alive: u64,
    pub hosts_unknown: u64,
}

/// All counts zero.
pub open spec fn zero_summary() -> OutputSummary {
    OutputSummary {
        scanned: 0,
        open: 0,
        closed: 0,
        uncertain: 0,
        errors: 0,
        hosts_alive: 0,
        hosts_unknown: 0,
    }
}

impl Default for OutputSummary {
    fn default() -> (r: Self)
        ensures
            r == zero_summary(),
    {
        OutputSummary {
            scanned: 0,
            open: 0,
            closed: 0,
            uncertain: 0,
            errors: 0,
            hosts_alive: 0,
            hosts_unknown: 0,
        }
    }
}

/// Whether text is coloured: only text output, and for `Auto` only on a terminal with
/// `NO_COLOR` unset.
pub open spec fn colored(format: OutputFormat, mode: ColorMode, terminal: bool, no_color: bool) -> bool {
    format == OutputFormat::Text && match mode {
        ColorMode::Auto => terminal && !no_color,
        ColorMode::Always => true,
        ColorMode::Never => false,
    }
}

// ---------------------------------------------------------------- text pieces

/// `text` wrapped in an ANSI colour code when colouring.
pub open spec fn paint(color: bool, code: Seq<char>, text: Seq<char>) -> Seq<char> {
    if color {
        code + text + RESET@
    } else {
        text
    }
}

/// `char::escape_default` for one character.
pub open spec fn escape_char(c: char) -> Seq<char> {
    if c == '\t' {
        "\\t"@
    } else if c == '\r' {
        "\\r"@
    } else if c == '\n' {
        "\\n"@
    } else if c == '\'' {
        "\\'"@
    } else if c == '"' {
        "\\\""@
    } else if c == '\\' {
        "\\\\"@
    } else if 0x20 <= (c as u32) <= 0x7e {
        seq![c]
    } else {
        "\\u{"@ + hex_text(c as u32 as nat) + "}"@
    }
}

/// Every character escaped with `char::escape_default`.
pub open spec fn escaped(s: Seq<char>) -> Seq<char>
    decreases s.len(),
{
    if s.len() == 0 {
        Seq::empty()
    } else {
        escaped(s.drop_last()) + escape_char(s.last())
    }
}

/// `ip:port`, with brackets around IPv6 addresses.
pub open spec fn endpoint_text(ip: Seq<char>, port: u16) -> Seq<char> {
    if contains(ip, ":"@) {
        "["@ + ip + "]:"@ + decimal(port as nat)
    } else {
        ip + ":"@ + decimal(port as nat)
    }
}

/// Texts joined by single spaces.
pub open spec fn spaced(parts: Seq<Seq<char>>) -> Seq<char>
    decreases parts.len(),
{
    if parts.len() == 0 {
        Seq::empty()
    } else if parts.len() == 1 {
        parts[0]
    } else {
        spaced(parts.drop_last()) + " "@ + parts.last()
    }
}

/// The service, if present.
pub open spec fn service_part(r: ScanResult) -> Seq<Seq<char>> {
    match r.service {
        Some(v) => seq![v@],
        None => Seq::empty(),
    }
}

/// The service and the product (unless it repeats the service), as present.
pub open spec fn product_parts(r: ScanResult) -> Seq<Seq<char>> {
    let s = service_part(r);
    match r.product {
        Some(v) => if s.contains(v@) {
            s
        } else {
            s.push(v@)
        },
        None => s,
    }
}

/// Service, product (unless it repeats the service) and version, as present.
pub open spec fn identity_parts(r: ScanResult) -> Seq<Seq<char>> {
    let p = product_parts(r);
    match r.version {
        Some(v) => p.push(v@),
        None => p,
    }
}

/// The state word, marker and colour of a scan record.
pub open spec fn scan_state(r: ScanResult) -> (Seq<char>, Seq<char>, Seq<char>) {
    match r.udp_state {
        Some(UdpState::Open) => ("open"@, "+"@, GREEN@),
        Some(UdpState::Closed) => ("closed"@, "-"@, DIM@),
        Some(UdpState::OpenOrFiltered) => ("open|filtered"@, "?"@, YELLOW@),
        None => if r.open {
            ("open"@, "+"@, GREEN@)
        } else {
            ("closed"@, "-"@, DIM@)
        },
    }
}

/// `  (host)` after a record whose host name differs from its address.
pub open spec fn host_note(color: bool, host: Seq<char>, ip: Seq<char>) -> Seq<char> {
    if host != ip {
        paint(color, DIM@, "  ("@ + host + ")"@)
    } else {
        Seq::empty()
    }
}

/// A latency such as `    12 ms`.
pub open spec fn latency_text(ms: u64) -> Seq<char> {
    pad_left(decimal(ms as nat), 6) + " ms"@
}

/// The protocol column of a scan record.
pub open spec fn protocol_name(t: Transport) -> Seq<char> {
    match t {
        Transport::Tcp => "tcp"@,
        Transport::Udp => "udp"@,
    }
}

/// The marker and state columns of a line.
pub open spec fn state_cells(color: bool, s: (Seq<char>, Seq<char>, Seq<char>)) -> Seq<char> {
    paint(color, s.2, s.1) + " "@ + paint(color, BOLD@, pad_right(s.0, 13)) + " "@
}

/// The first columns of a scan line: marker, state, endpoint and protocol.
pub open spec fn scan_lead(color: bool, r: ScanResult) -> Seq<char> {
    state_cells(color, scan_state(r)) + paint(
        color,
        CYAN@,
        pad_right(endpoint_text(r.ip@, r.port), 23),
    ) + " "@ + pad_right(protocol_name(r.transport), 3) + " "@
}

/// The rest of a scan line: latency, identity and host name.
pub open spec fn scan_tail(color: bool, r: ScanResult) -> Seq<char> {
    let identity = spaced(identity_parts(r));
    paint(color, DIM@, latency_text(r.latency_ms)) + (if identity.len() > 0 {
        "  "@ + identity
    } else {
        Seq::empty()
    }) + host_note(color, r.host@, r.ip@) + "\n"@
}

/// An indented banner or error line, escaped, when present.
pub open spec fn note_line(color: bool, code: Seq<char>, label: Seq<char>, text: Option<String>) -> Seq<
    char,
> {
    match text {
        Some(t) => paint(color, code, label) + escaped(t@) + "\n"@,
        None => Seq::empty(),
    }
}

/// The text lines of a scan record: the state line, then the banner and the error, each
/// escaped, when present.
pub open spec fn scan_text(color: bool, r: ScanResult) -> Seq<char> {
    scan_lead(color, r) + scan_tail(color, r) + note_line(color, DIM@, "    banner  "@, r.banner)
        + note_line(color, RED@, "    error   "@, r.error)
}

/// The state word, marker and colour of a discovery record.
pub open spec fn host_state(s: HostState) -> (Seq<char>, Seq<char>, Seq<char>) {
    match s {
        HostState::Alive => ("alive"@, "+"@, GREEN@),
        HostState::Unknown => ("unknown"@, "?"@, YELLOW@),
    }
}

/// The text line of a discovery record.
pub open spec fn host_text(color: bool, r: HostDiscoveryResult) -> Seq<char> {
    state_cells(color, host_state(r.state)) + paint(
        color,
        CYAN@,
        pad_right(r.ip@, 23),
    ) + " "@ + pad_right(r.method@, 8) + paint(color, DIM@, " "@ + latency_text(r.latency_ms))
        + host_note(color, r.host@, r.ip@) + "\n"@
}

/// A painted count such as `  3 open`.
pub open spec fn count_text(color: bool, code: Seq<char>, n: u64, label: Seq<char>) -> Seq<char> {
    paint(color, code, "  "@ + decimal(n as nat) + label)
}

/// The port counts of the summary.
pub open spec fn port_counts(color: bool, s: OutputSummary) -> Seq<char> {
    if s.scanned > 0 {
        "  "@ + decimal(s.scanned as nat) + " scanned"@ + count_text(color, GREEN@, s.open, " open"@)
            + (if s.uncertain > 0 {
            count_text(color, YELLOW@, s.uncertain, " uncertain"@)
        } else {
            Seq::empty()
        }) + count_text(color, DIM@, s.closed, " closed"@) + (if s.errors > 0 {
            count_text(color, RED@, s.errors, " errors"@)
        } else {
            Seq::empty()
        })
    } else {
        Seq::empty()
    }
}

/// The host counts of the summary.
pub open spec fn host_counts(color: bool, s: OutputSummary) -> Seq<char> {
    if s.hosts_alive + s.hosts_unknown > 0 {
        count_text(color, GREEN@, s.hosts_alive, " alive"@) + (if s.hosts_unknown > 0 {
            count_text(color, YELLOW@, s.hosts_unknown, " unknown"@)
        } else {
            Seq::empty()
        })
    } else {
        Seq::empty()
    }
}

/// The closing summary of text output.
pub open spec fn summary_text(color: bool, s: OutputSummary) -> Seq<char> {
    paint(color, DIM@, "------------------------------------------------------------"@) + "\n"@
        + paint(color, BOLD@, "Summary"@) + port_counts(color, s) + host_counts(color, s)
        + "\n"@
}

/// The summary after one more scan record: counted, sorted by state, and counted as an
/// error when it carries one, except a closed TCP port, whose error is expected.
pub open spec fn counted(s: OutputSummary, r: ScanResult) -> OutputSummary {
    let errors = if r.error is Some && !(!r.open && r.transport == Transport::Tcp) {
        s.errors + 1
    } else {
        s.errors as int
    };
    let (open, closed, uncertain) = match r.udp_state {
        Some(UdpState::Open) => (s.open + 1, s.closed as int, s.uncertain as int),
        Some(UdpState::Closed) => (s.open as int, s.closed + 1, s.uncertain as int),
        Some(UdpState::OpenOrFiltered) => (s.open as int, s.closed as int, s.uncertain + 1),
        None => if r.open {
            (s.open + 1, s.closed as int, s.uncertain as int)
        } else {
            (s.open as int, s.closed + 1, s.uncertain as int)
        },
    };
    OutputSummary {
        scanned: (s.scanned + 1) as u64,
        open: open as u64,
        closed: closed as u64,
        uncertain: uncertain as u64,
        errors: errors as u64,
        hosts_alive: s.hosts_alive,
        hosts_unknown: s.hosts_unknown,
    }
}

/// Every scan record is open, closed or uncertain, and at most every record is an
/// error.
pub open spec fn balanced(s: OutputSummary) -> bool {
    s.open + s.closed + s.uncertain == s.scanned && s.errors <= s.scanned
}

/// Counting a scan record, whether it is written or kept hidden, keeps the counts
/// balanced: every record scanned is open, closed or uncertain, and no more records are
/// errors than were scanned.
pub proof fn counting_keeps_the_counts_balanced(s: OutputSummary, r: ScanResult)
    requires
        balanced(s),
        s.scanned < u64::MAX,
    ensures
        balanced(counted(s, r)),
        counted(s, r).scanned == s.scanned + 1,
{
}

// ---------------------------------------------------------------- the writer

/// Renders records in one format and keeps the summary; the rendered text is handed
/// over by `flush`.
pub struct ResultWriter {
    format: OutputFormat,
    color: bool,
    summary: OutputSummary,
    pending: Vec<char>,
}

impl ResultWriter {
    #[verifier::type_invariant]
    spec fn counts_balance(self) -> bool {
        balanced(self.summary)
    }

    /// The format records are rendered in.
    pub closed spec fn format_of(self) -> OutputFormat {
        self.format
    }

    /// Whether text is coloured.
    pub closed spec fn colors(self) -> bool {
        self.color
    }

    /// The counts so far.
    pub closed spec fn counts(self) -> OutputSummary {
        self.summary
    }

    /// The text rendered since the last flush.
    pub closed spec fn rendered(self) -> Seq<char> {
        self.pending@
    }

    /// A writer whose colouring follows `color_mode`; `terminal` says whether output goes
    /// to a terminal and `no_color` whether `NO_COLOR` is set.
    pub fn with_color(format: OutputFormat, color_mode: ColorMode, terminal: bool, no_color: bool) -> (r:
        Self)
        ensures
            r.format_of() == format,
            r.colors() == colored(format, color_mode, terminal, no_color),
            r.counts() == zero_summary(),
            r.rendered() == Seq::<char>::empty(),
    {
        let color = format == OutputFormat::Text && match color_mode {
            ColorMode::Auto => terminal && !no_color,
            ColorMode::Always => true,
            ColorMode::Never => false,
        };
        ResultWriter { format, color, summary: OutputSummary::default(), pending: Vec::new() }
    }

    /// A writer that colours text automatically.
    pub fn new(format: OutputFormat, terminal: bool, no_color: bool) -> (r: Self)
        ensures
            r.format_of() == format,
            r.colors() == colored(format, ColorMode::Auto, terminal, no_color),
            r.counts() == zero_summary(),
            r.rendered() == Seq::<char>::empty(),
    {
        Self::with_color(format, ColorMode::Auto, terminal, no_color)
    }

    /// The counts so far; every scan record counted is open, closed or uncertain.
    pub fn summary(&self) -> (r: OutputSummary)
        ensures
            r == self.counts(),
            r.open + r.closed + r.uncertain == r.scanned,
            r.errors <= r.scanned,
    {
        proof {
            use_type_invariant(self);
        }
        self.summary
    }

    /// Counts a record without rendering it.
    pub fn record_hidden(&mut self, result: &ScanResult)
        requires
            old(self).counts().scanned < u64::MAX,
        ensures
            final(self).counts() == counted(old(self).counts(), *result),
            final(self).rendered() == old(self).rendered(),
            final(self).format_of() == old(self).format_of(),
            final(self).colors() == old(self).colors(),
    {
        self.record_scan(result);
    }

    fn record_scan(&mut self, result: &ScanResult)
        requires
            old(self).counts().scanned < u64::MAX,
        ensures
            final(self).counts() == counted(old(self).counts(), *result),
            final(self).rendered() == old(self).rendered(),
            final(self).format_of() == old(self).format_of(),
            final(self).colors() == old(self).colors(),
    {
        proof {
            use_type_invariant(&*self);
        }
        let s = self.summary;
        let errors = if result.error.is_some() && !(!result.open && result.transport
            == Transport::Tcp) {
            s.errors + 1
        } else {
            s.errors
        };
        let (open, closed, uncertain) = match result.udp_state {
            Some(UdpState::Open) => (s.open + 1, s.closed, s.uncertain),
            Some(UdpState::Closed) => (s.open, s.closed + 1, s.uncertain),
            Some(UdpState::OpenOrFiltered) => (s.open, s.closed, s.uncertain + 1),
            None => if result.open {
                (s.open + 1, s.closed, s.uncertain)
            } else {
                (s.open, s.closed + 1, s.uncertain)
            },
        };
        self.summary = OutputSummary {
            scanned: s.scanned + 1,
            open,
            closed,
            uncertain,
            errors,
            hosts_alive: s.hosts_alive,
            hosts_unknown: s.hosts_unknown,
        };
    }

    /// Counts a scan record and, for text output, renders it.
    pub fn write(&mut self, result: &ScanResult)
        requires
            old(self).counts().scanned < u64::MAX,
        ensures
            final(self).counts() == counted(old(self).counts(), *result),
            final(self).rendered() == old(self).rendered() + if old(self).format_of()
                == OutputFormat::Text {
                scan_text(old(self).colors(), *result)
            } else {
                Seq::empty()
            },
            final(self).format_of() == old(self).format_of(),
            final(self).colors() == old(self).colors(),
    {
        self.record_scan(result);
        if self.format == OutputFormat::Text {
            let mut text: Vec<char> = Vec::new();
            push_scan_text(&mut text, self.color, result);
            self.append(&text);
        } else {
            proof {
                assert(self.pending@ =~= self.pending@ + Seq::<char>::empty());
            }
        }
    }

    /// Adds one line of already encoded output (such as a JSON record).
    pub fn write_encoded(&mut self, line: &str)
        ensures
            final(self).rendered() == old(self).rendered() + line@ + "\n"@,
            final(self).counts() == old(self).counts(),
            final(self).format_of() == old(self).format_of(),
            final(self).colors() == old(self).colors(),
    {
        let mut text = chars_of(line);
        push_all(&mut text, &chars_of("\n"));
        self.append(&text);
    }

    fn append(&mut self, text: &[char])
        ensures
            final(self).rendered() == old(self).rendered() + text@,
            final(self).counts() == old(self).counts(),
            final(self).format_of() == old(self).format_of(),
            final(self).colors() == old(self).colors(),
    {
        proof {
            use_type_invariant(&*self);
        }
        let mut buffer: Vec<char> = Vec::new();
        std::mem::swap(&mut buffer, &mut self.pending);
        push_all(&mut buffer, text);
        self.pending = buffer;
    }

    /// Counts a discovery record and, for text output, renders it.
    pub fn write_host(&mut self, result: &HostDiscoveryResult)
        requires
            match result.state {
                HostState::Alive => old(self).counts().hosts_alive < u64::MAX,
                HostState::Unknown => old(self).counts().hosts_unknown < u64::MAX,
            },
        ensures
            final(self).counts() == (match result.state {
                HostState::Alive => OutputSummary {
                    hosts_alive: (old(self).counts().hosts_alive + 1) as u64,
                    ..old(self).counts()
                },
                HostState::Unknown => OutputSummary {
                    hosts_unknown: (old(self).counts().hosts_unknown + 1) as u64,
                    ..old(self).counts()
                },
            }),
            final(self).rendered() == old(self).rendered() + if old(self).format_of()
                == OutputFormat::Text {
                host_text(old(self).colors(), *result)
            } else {
                Seq::empty()
            },
            final(self).format_of() == old(self).format_of(),
            final(self).colors() == old(self).colors(),
    {
        proof {
            use_type_invariant(&*self);
        }
        let s = self.summary;
        self.summary = match result.state {
            HostState::Alive => OutputSummary { hosts_alive: s.hosts_alive + 1, ..s },
            HostState::Unknown => OutputSummary { hosts_unknown: s.hosts_unknown + 1, ..s },
        };
        if self.format == OutputFormat::Text {
            let mut text: Vec<char> = Vec::new();
            push_host_text(&mut text, self.color, result);
            self.append(&text);
        } else {
            proof {
                assert(self.pending@ =~= self.pending@ + Seq::<char>::empty());
            }
        }
    }

    /// For text output, renders the summary; JSON output has none.
    pub fn write_summary(&mut self)
        ensures
            final(self).rendered() == old(self).rendered() + if old(self).format_of()
                == OutputFormat::Text {
                summary_text(old(self).colors(), old(self).counts())
            } else {
                Seq::empty()
            },
            final(self).counts() == old(self).counts(),
            final(self).format_of() == old(self).format_of(),
            final(self).colors() == old(self).colors(),
    {
        if self.format == OutputFormat::Jsonl {
            assert(self.pending@ =~= self.pending@ + Seq::<char>::empty());
            return;
        }
        let mut text: Vec<char> = Vec::new();
        push_summary_text(&mut text, self.color, self.summary);
        self.append(&text);
    }

    /// Hands over the text rendered since the last flush.
    pub fn flush(&mut self) -> (r: String)
        ensures
            r@ == old(self).rendered(),
            final(self).rendered() == Seq::<char>::empty(),
            final(self).counts() == old(self).counts(),
            final(self).format_of() == old(self).format_of(),
            final(self).colors() == old(self).colors(),
    {
        proof {
            use_type_invariant(&*self);
        }
        let text = string_from(&self.pending);
        self.pending = Vec::new();
        text
    }
}

// ---------------------------------------------------------------- rendering

fn push_paint(out: &mut Vec<char>, color: bool, code: &str, text: &[char])
    ensures
        final(out)@ == old(out)@ + paint(color, code@, text@),
{
    if color {
        push_all(out, &chars_of(code));
        push_all(out, text);
        push_all(out, &chars_of(RESET));
        assert(final(out)@ =~= old(out)@ + paint(color, code@, text@));
    } else {
        push_all(out, text);
    }
}

fn push_str(out: &mut Vec<char>, s: &str)
    ensures
        final(out)@ == old(out)@ + s@,
{
    push_all(out, &chars_of(s));
}

fn push_escaped_char(out: &mut Vec<char>, c: char)
    ensures
        final(out)@ == old(out)@ + escape_char(c),
{
    if c == '\t' {
        push_str(out, "\\t");
    } else if c == '\r' {
        push_str(out, "\\r");
    } else if c == '\n' {
        push_str(out, "\\n");
    } else if c == '\'' {
        push_str(out, "\\'");
    } else if c == '"' {
        push_str(out, "\\\"");
    } else if c == '\\' {
        push_str(out, "\\\\");
    } else if 0x20 <= (c as u32) && (c as u32) <= 0x7e {
        out.push(c);
    } else {
        push_str(out, "\\u{");
        push_hex(out, c as u32);
        push_str(out, "}");
        assert(final(out)@ =~= old(out)@ + escape_char(c));
    }
}

fn push_escaped(out: &mut Vec<char>, s: &[char])
    ensures
        final(out)@ == old(out)@ + escaped(s@),
{
    let mut i: usize = 0;
    while i < s.len()
        invariant
            0 <= i <= s@.len(),
            out@ == old(out)@ + escaped(s@.subrange(0, i as int)),
        decreases s@.len() - i,
    {
        push_escaped_char(out, s[i]);
        assert(s@.subrange(0, i + 1).drop_last() =~= s@.subrange(0, i as int));
        i = i + 1;
        assert(out@ =~= old(out)@ + escaped(s@.subrange(0, i as int)));
    }
    assert(s@.subrange(0, s@.len() as int) =~= s@);
}

fn push_endpoint(out: &mut Vec<char>, ip: &[char], port: u16)
    ensures
        final(out)@ == old(out)@ + endpoint_text(ip@, port),
{
    if contains_chars(ip, &chars_of(":")) {
        push_str(out, "[");
        push_all(out, ip);
        push_str(out, "]:");
        push_decimal(out, port as u64);
    } else {
        push_all(out, ip);
        push_str(out, ":");
        push_decimal(out, port as u64);
    }
    assert(final(out)@ =~= old(out)@ + endpoint_text(ip@, port));
}

fn push_identity(out: &mut Vec<char>, r: &ScanResult)
    ensures
        final(out)@ == old(out)@ + spaced(identity_parts(*r)),
{
    let ghost s = service_part(*r);
    let ghost p = product_parts(*r);
    let mut count: usize = 0;
    let mut text: Vec<char> = Vec::new();
    match &r.service {
        Some(v) => {
            push_str(&mut text, v.as_str());
            count = 1;
            assert(text@ =~= spaced(s));
        },
        None => {
            assert(text@ =~= spaced(s));
        },
    }
    match &r.product {
        Some(v) => {
            let repeated = match &r.service {
                Some(sv) => chars_eq(&chars_of(sv.as_str()), &chars_of(v.as_str())),
                None => false,
            };
            proof {
                if r.service is Some {
                    assert(s.contains(v@) == (r.service->0@ == v@)) by {
                        if s.contains(v@) {
                            let w = choose|w: int| 0 <= w < s.len() && s[w] == v@;
                            assert(w == 0);
                        }
                        if r.service->0@ == v@ {
                            assert(s[0] == v@);
                        }
                    }
                }
            }
            if !repeated {
                if count > 0 {
                    push_str(&mut text, " ");
                }
                push_str(&mut text, v.as_str());
                proof {
                    if count > 0 {
                        assert(s.push(v@).drop_last() =~= s);
                    } else {
                        assert(s.push(v@) =~= seq![v@]);
                    }
                    assert(text@ =~= spaced(p));
                }
                count = count + 1;
            }
        },
        None => {},
    }
    assert(count == p.len());
    assert(text@ == spaced(p));
    match &r.version {
        Some(v) => {
            if count > 0 {
                push_str(&mut text, " ");
            }
            push_str(&mut text, v.as_str());
            proof {
                if count > 0 {
                    assert(p.push(v@).drop_last() =~= p);
                } else {
                    assert(p.push(v@) =~= seq![v@]);
                }
                assert(text@ =~= spaced(p.push(v@)));
            }
        },
        None => {},
    }
    push_all(out, &text);
}

fn push_host_note(out: &mut Vec<char>, color: bool, host: &[char], ip: &[char])
    ensures
        final(out)@ == old(out)@ + host_note(color, host@, ip@),
{
    if !chars_eq(host, ip) {
        let mut h = chars_of("  (");
        push_all(&mut h, host);
        push_str(&mut h, ")");
        push_paint(out, color, DIM, &h);
    } else {
        assert(final(out)@ =~= old(out)@ + host_note(color, host@, ip@));
    }
}

fn push_latency(out: &mut Vec<char>, ms: u64)
    ensures
        final(out)@ == old(out)@ + latency_text(ms),
{
    let mut digits: Vec<char> = Vec::new();
    push_decimal(&mut digits, ms);
    push_pad_left(out, &digits, 6);
    push_str(out, " ms");
    assert(final(out)@ =~= old(out)@ + latency_text(ms));
}

fn push_padded_paint(out: &mut Vec<char>, color: bool, code: &str, text: &[char], width: usize)
    ensures
        final(out)@ == old(out)@ + paint(color, code@, pad_right(text@, width as nat)),
{
    let mut padded: Vec<char> = Vec::new();
    push_pad_right(&mut padded, text, width);
    assert(padded@ =~= pad_right(text@, width as nat));
    push_paint(out, color, code, &padded);
}

fn push_state_cells(out: &mut Vec<char>, color: bool, state: &str, marker: &str, code: &str)
    ensures
        final(out)@ == old(out)@ + state_cells(color, (state@, marker@, code@)),
{
    push_paint(out, color, code, &chars_of(marker));
    push_str(out, " ");
    push_padded_paint(out, color, BOLD, &chars_of(state), 13);
    push_str(out, " ");
    assert(final(out)@ =~= old(out)@ + state_cells(color, (state@, marker@, code@)));
}

fn scan_state_of(r: &ScanResult) -> (t: (&'static str, &'static str, &'static str))
    ensures
        (t.0@, t.1@, t.2@) == scan_state(*r),
{
    match r.udp_state {
        Some(UdpState::Open) => ("open", "+", GREEN),
        Some(UdpState::Closed) => ("closed", "-", DIM),
        Some(UdpState::OpenOrFiltered) => ("open|filtered", "?", YELLOW),
        None => if r.open {
            ("open", "+", GREEN)
        } else {
            ("closed", "-", DIM)
        },
    }
}

fn protocol_of(t: Transport) -> (r: &'static str)
    ensures
        r@ == protocol_name(t),
{
    match t {
        Transport::Tcp => "tcp",
        Transport::Udp => "udp",
    }
}

fn push_scan_lead(out: &mut Vec<char>, color: bool, r: &ScanResult)
    ensures
        final(out)@ == old(out)@ + scan_lead(color, *r),
{
    let (state, marker, code) = scan_state_of(r);
    push_state_cells(out, color, state, marker, code);
    let mut endpoint: Vec<char> = Vec::new();
    push_endpoint(&mut endpoint, &chars_of(r.ip.as_str()), r.port);
    push_padded_paint(out, color, CYAN, &endpoint, 23);
    push_str(out, " ");
    push_pad_right(out, &chars_of(protocol_of(r.transport)), 3);
    push_str(out, " ");
    assert(final(out)@ =~= old(out)@ + scan_lead(color, *r));
}

fn push_scan_tail(out: &mut Vec<char>, color: bool, r: &ScanResult)
    ensures
        final(out)@ == old(out)@ + scan_tail(color, *r),
{
    let mut identity: Vec<char> = Vec::new();
    push_identity(&mut identity, r);
    let mut latency: Vec<char> = Vec::new();
    push_latency(&mut latency, r.latency_ms);
    push_paint(out, color, DIM, &latency);
    let ghost p1 = out@;
    if identity.len() > 0 {
        push_str(out, "  ");
        push_all(out, &identity);
    }
    let ghost p2 = out@;
    push_host_note(out, color, &chars_of(r.host.as_str()), &chars_of(r.ip.as_str()));
    push_str(out, "\n");
    assert(final(out)@ =~= old(out)@ + scan_tail(color, *r));
}

fn push_note_line(out: &mut Vec<char>, color: bool, code: &str, label: &str, text: &Option<String>)
    ensures
        final(out)@ == old(out)@ + note_line(color, code@, label@, *text),
{
    match text {
        Some(t) => {
            push_paint(out, color, code, &chars_of(label));
            push_escaped(out, &chars_of(t.as_str()));
            push_str(out, "\n");
            assert(final(out)@ =~= old(out)@ + note_line(color, code@, label@, *text));
        },
        None => {
            assert(final(out)@ =~= old(out)@ + note_line(color, code@, label@, *text));
        },
    }
}

fn push_scan_text(out: &mut Vec<char>, color: bool, r: &ScanResult)
    ensures
        final(out)@ == old(out)@ + scan_text(color, *r),
{
    push_scan_lead(out, color, r);
    push_scan_tail(out, color, r);
    push_note_line(out, color, DIM, "    banner  ", &r.banner);
    push_note_line(out, color, RED, "    error   ", &r.error);
    assert(final(out)@ =~= old(out)@ + scan_text(color, *r));
}

fn push_host_text(out: &mut Vec<char>, color: bool, r: &HostDiscoveryResult)
    ensures
        final(out)@ == old(out)@ + host_text(color, *r),
{
    let (state, marker, code) = match r.state {
        HostState::Alive => ("alive", "+", GREEN),
        HostState::Unknown => ("unknown", "?", YELLOW),
    };
    assert(host_state(r.state) == (state@, marker@, code@));
    let ip = chars_of(r.ip.as_str());
    push_state_cells(out, color, state, marker, code);
    push_padded_paint(out, color, CYAN, &ip, 23);
    push_str(out, " ");
    push_pad_right(out, &chars_of(r.method.as_str()), 8);
    let ghost p2 = out@;
    let mut latency: Vec<char> = chars_of(" ");
    push_latency(&mut latency, r.latency_ms);
    push_paint(out, color, DIM, &latency);
    push_host_note(out, color, &chars_of(r.host.as_str()), &ip);
    push_str(out, "\n");
    assert(final(out)@ =~= old(out)@ + host_text(color, *r));
}

fn push_count(out: &mut Vec<char>, color: bool, code: &str, n: u64, label: &str)
    ensures
        final(out)@ == old(out)@ + count_text(color, code@, n, label@),
{
    let mut t = chars_of("  ");
    push_decimal(&mut t, n);
    push_str(&mut t, label);
    push_paint(out, color, code, &t);
}

fn push_port_counts(out: &mut Vec<char>, color: bool, s: OutputSummary)
    ensures
        final(out)@ == old(out)@ + port_counts(color, s),
{
    if s.scanned > 0 {
        push_str(out, "  ");
        push_decimal(out, s.scanned);
        push_str(out, " scanned");
        push_count(out, color, GREEN, s.open, " open");
        let ghost p1 = out@;
        if s.uncertain > 0 {
            push_count(out, color, YELLOW, s.uncertain, " uncertain");
        }
        let ghost p2 = out@;
        push_count(out, color, DIM, s.closed, " closed");
        if s.errors > 0 {
            push_count(out, color, RED, s.errors, " errors");
        }
    }
    assert(final(out)@ =~= old(out)@ + port_counts(color, s));
}

fn push_host_counts(out: &mut Vec<char>, color: bool, s: OutputSummary)
    ensures
        final(out)@ == old(out)@ + host_counts(color, s),
{
    if s.hosts_alive > 0 || s.hosts_unknown > 0 {
        push_count(out, color, GREEN, s.hosts_alive, " alive");
        if s.hosts_unknown > 0 {
            push_count(out, color, YELLOW, s.hosts_unknown, " unknown");
        }
    }
    assert(final(out)@ =~= old(out)@ + host_counts(color, s));
}

fn push_summary_text(out: &mut Vec<char>, color: bool, s: OutputSummary)
    ensures
        final(out)@ == old(out)@ + summary_text(color, s),
{
    push_paint(
        out,
        color,
        DIM,
        &chars_of("------------------------------------------------------------"),
    );
    push_str(out, "\n");
    push_paint(out, color, BOLD, &chars_of("Summary"));
    push_port_counts(out, color, s);
    push_host_counts(out, color, s);
    push_str(out, "\n");
    assert(final(out)@ =~= old(out)@ + summary_text(color, s));
}

// ---------------------------------------------------------------- laws

proof fn lemma_no_colon(s: Seq<char>)
    requires
        forall|k: int| 0 <= k < s.len() ==> #[trigger] s[k] != ':',
    ensures
        !contains(s, ":"@),
{
    reveal_strlit(":");
    if contains(s, ":"@) {
        let i = choose|i: int| 0 <= i <= s.len() - 1 && #[trigger] s.subrange(i, i + 1) == ":"@;
        assert(s.subrange(i, i + 1)[0] == s[i]);
    }
}

proof fn lemma_colon_at(s: Seq<char>, i: int)
    requires
        0 <= i < s.len(),
        s[i] == ':',
    ensures
        contains(s, ":"@),
{
    reveal_strlit(":");
    assert(s.subrange(i, i + 1) =~= ":"@);
}

proof fn lemma_ipv4_text_has_no_colon(v: u32)
    ensures
        !contains(ipv4_display(v), ":"@),
        is_digit(ipv4_display(v)[0]),
{
    let s = ipv4_display(v);
    lemma_ipv4_text_chars(v);
    assert forall|k: int| 0 <= k < s.len() implies #[trigger] s[k] != ':' by {
        assert(is_digit(s[k]) || s[k] == '.');
    }
    lemma_no_colon(s);
}

proof fn lemma_ipv6_text_has_colon(b: u128)
    ensures
        contains(ipv6_display(b), ":"@),
{
    let g = address_groups(b);
    let s = ipv6_display(b);
    reveal_strlit("::ffff:");
    reveal_strlit("::");
    reveal_strlit(":");
    if g[0] == 0 && g[1] == 0 && g[2] == 0 && g[3] == 0 && g[4] == 0 && g[5] == 0xffff {
        assert(s[0] == ':');
        lemma_colon_at(s, 0);
    } else {
        let (start, len) = longest_zeros_from(g, 0);
        if len > 1 {
            let head = join_hex(g.subrange(0, start));
            assert(s[head.len() as int] == ':');
            lemma_colon_at(s, head.len() as int);
        } else {
            lemma_groups_len(b as nat, 8);
            assert(g.len() == 8);
            let head = join_hex(g.drop_last());
            assert(s == head + ":"@ + hex_text(g.last() as nat));
            assert(s[head.len() as int] == ':');
            lemma_colon_at(s, head.len() as int);
        }
    }
}

proof fn lemma_groups_len(x: nat, k: nat)
    ensures
        groups_of_bits(x, k).len() == k,
    decreases k,
{
    if k > 0 {
        lemma_groups_len(x / 0x10000, (k - 1) as nat);
    }
}

/// In text output an IPv6 address is always bracketed before its port, and an IPv4
/// address never is.
pub proof fn ipv6_endpoints_are_bracketed(a: IpAddress, port: u16)
    ensures
        (endpoint_text(address_text(a), port)[0] == '[') <==> (a is V6),
{
    reveal_strlit("[");
    match a {
        IpAddress::V4(v) => {
            lemma_ipv4_text_has_no_colon(v);
            let t = endpoint_text(address_text(a), port);
            assert(t[0] == ipv4_display(v)[0]);
        },
        IpAddress::V6(b) => {
            lemma_ipv6_text_has_colon(b);
        },
    }
}

/// A printable ASCII character: no control code can reach the terminal through it.
pub open spec fn printable(c: char) -> bool {
    0x20 <= (c as u32) <= 0x7e
}

proof fn lemma_hex_text_printable(n: nat)
    ensures
        forall|k: int| 0 <= k < hex_text(n).len() ==> printable(#[trigger] hex_text(n)[k]),
    decreases n,
{
    let d = n % 16;
    if d < 10 {
        assert((hex_char(d) as u32) == d + 48);
    } else {
        assert((hex_char(d) as u32) == d + 87);
    }
    if n < 16 {
        assert(hex_text(n)[0] == hex_char(n));
    } else {
        lemma_hex_text_printable(n / 16);
        let t = hex_text(n);
        assert forall|k: int| 0 <= k < t.len() implies printable(#[trigger] t[k]) by {
            if k < t.len() - 1 {
                assert(t[k] == hex_text(n / 16)[k]);
            } else {
                assert(t[k] == hex_char(d));
            }
        }
    }
}

proof fn lemma_escape_char_printable(c: char)
    ensures
        forall|k: int| 0 <= k < escape_char(c).len() ==> printable(#[trigger] escape_char(c)[k]),
{
    reveal_strlit("\\t");
    reveal_strlit("\\r");
    reveal_strlit("\\n");
    reveal_strlit("\\'");
    reveal_strlit("\\\"");
    reveal_strlit("\\\\");
    reveal_strlit("\\u{");
    reveal_strlit("}");
    let special = c == '\t' || c == '\r' || c == '\n' || c == '\'' || c == '"' || c == '\\';
    if !special && !printable(c) {
        let h = hex_text(c as u32 as nat);
        lemma_hex_text_printable(c as u32 as nat);
        let e = escape_char(c);
        assert(e == "\\u{"@ + h + "}"@);
        assert forall|k: int| 0 <= k < e.len() implies printable(#[trigger] e[k]) by {
            if 3 <= k < 3 + h.len() {
                assert(e[k] == h[k - 3]);
            }
        }
    }
}

/// Banners and error texts are written escaped: whatever a remote service sends, only
/// printable ASCII characters reach the output.
pub proof fn escaped_text_is_printable(s: Seq<char>)
    ensures
        forall|k: int| 0 <= k < escaped(s).len() ==> printable(#[trigger] escaped(s)[k]),
    decreases s.len(),
{
    if s.len() > 0 {
        escaped_text_is_printable(s.drop_last());
        lemma_escape_char_printable(s.last());
        let a = escaped(s.drop_last());
        let b = escape_char(s.last());
        assert forall|k: int| 0 <= k < escaped(s).len() implies printable(#[trigger] escaped(s)[k]) by {
            if k < a.len() {
                assert(escaped(s)[k] == a[k]);
            } else {
                assert(escaped(s)[k] == b[k - a.len()]);
            }
        }
    }
}

} // verus!
