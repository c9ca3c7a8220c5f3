//! Service identification from the first bytes a TCP service sends.
use vstd::prelude::*;
use vstd::string::StringExecFns;
use crate::text::{
    chars_eq, chars_of, contains, contains_chars, starts_with, starts_with_chars, first_word, first_word_chars, lemma_next_sep, lines, lines_chars,
    lower_all, lower_chars, next_sep, slice_of, split_once, split_once_chars, string_from, trim,
    trim_chars, views, is_white_space, skip_ws, next_ws, lemma_next_sep_bounds,
};

verus! {

/// What is known of the service behind a port.
#[derive(Debug, Clone, PartialEq, Eq)]
pub struct Fingerprint {
    pub service: Option<String>,
    pub product: Option<String>,
    pub version: Option<String>,
}

/// A fingerprint as three optional texts: service, product, version.
pub type FingerprintView = (Option<Seq<char>>, Option<Seq<char>>, Option<Seq<char>>);

/// The text of an optional string.
pub open spec fn opt_text(o: Option<String>) -> Option<Seq<char>> {
    match o {
        Some(s) => Some(s@),
        None => None,
    }
}

impl View for Fingerprint {
    type V = FingerprintView;

    open spec fn view(&self) -> FingerprintView {
        (opt_text(self.service), opt_text(self.product), opt_text(self.version))
    }
}

impl Default for Fingerprint {
    fn default() -> (r: Self)
        ensures
            r@ == (None::<Seq<char>>, None::<Seq<char>>, None::<Seq<char>>),
    {
        Fingerprint { service: None, product: None, version: None }
    }
}

impl Fingerprint {
    /// Whether a service was recognised.
    pub fn is_identified(&self) -> (r: bool)
        ensures
            r == self.service.is_some(),
    {
        self.service.is_some()
    }
}

/// A fingerprint that names only the service.
pub open spec fn named(name: Seq<char>) -> FingerprintView {
    (Some(name), None, None)
}

/// `None` for empty text.
pub open spec fn nonempty_text(v: Seq<char>) -> Option<Seq<char>> {
    if v.len() == 0 {
        None
    } else {
        Some(v)
    }
}

/// The well-known service of a port.
pub open spec fn port_service(port: u16) -> Option<Seq<char>> {
    if port == 20 || port == 21 {
        Some("ftp"@)
    } else if port == 22 {
        Some("ssh"@)
    } else if port == 23 {
        Some("telnet"@)
    } else if port == 25 || port == 465 || port == 587 {
        Some("smtp"@)
    } else if port == 53 {
        Some("dns"@)
    } else if port == 80 || port == 8000 || port == 8080 || port == 8888 {
        Some("http"@)
    } else if port == 110 || port == 995 {
        Some("pop3"@)
    } else if port == 143 || port == 993 {
        Some("imap"@)
    } else if port == 443 || port == 8443 {
        Some("https"@)
    } else if port == 3306 {
        Some("mysql"@)
    } else if port == 5432 {
        Some("postgresql"@)
    } else if port == 6379 {
        Some("redis"@)
    } else {
        None
    }
}

/// The text of an optional static string.
pub open spec fn opt_str_text(o: Option<&'static str>) -> Option<Seq<char>> {
    match o {
        Some(s) => Some(s@),
        None => None,
    }
}

/// The service conventionally bound to `port`.
pub fn service_for_port(port: u16) -> (r: Option<&'static str>)
    ensures
        opt_str_text(r) == port_service(port),
{
    if port == 20 || port == 21 {
        Some("ftp")
    } else if port == 22 {
        Some("ssh")
    } else if port == 23 {
        Some("telnet")
    } else if port == 25 || port == 465 || port == 587 {
        Some("smtp")
    } else if port == 53 {
        Some("dns")
    } else if port == 80 || port == 8000 || port == 8080 || port == 8888 {
        Some("http")
    } else if port == 110 || port == 995 {
        Some("pop3")
    } else if port == 143 || port == 993 {
        Some("imap")
    } else if port == 443 || port == 8443 {
        Some("https")
    } else if port == 3306 {
        Some("mysql")
    } else if port == 5432 {
        Some("postgresql")
    } else if port == 6379 {
        Some("redis")
    } else {
        None
    }
}

/// The low-confidence fingerprint from the port number alone.
pub open spec fn port_fingerprint(port: u16) -> FingerprintView {
    match port_service(port) {
        Some(name) => named(name),
        None => (None, None, None),
    }
}

/// A fingerprint from the port number alone.
pub fn port_fallback(port: u16) -> (r: Fingerprint)
    ensures
        r@ == port_fingerprint(port),
{
    match service_for_port(port) {
        Some(name) => service(name),
        None => Fingerprint::default(),
    }
}

fn service(name: &str) -> (r: Fingerprint)
    ensures
        r@ == named(name@),
{
    Fingerprint { service: Some(String::from_str(name)), product: None, version: None }
}

fn nonempty(value: &[char]) -> (r: Option<String>)
    ensures
        opt_text(r) == nonempty_text(value@),
{
    if value.len() == 0 {
        None
    } else {
        Some(string_from(value))
    }
}

/// `String::from_utf8_lossy`: the text of `bytes`, each maximal ill-formed subsequence
/// replaced by U+FFFD.
pub uninterp spec fn utf8_lossy(bytes: Seq<u8>) -> Seq<char>;

/// Decodes bytes with `String::from_utf8_lossy`, which leaves valid UTF-8 as it is
/// (the characters it encodes); what it makes of invalid input is only named.
#[verifier::external_body]
pub(crate) fn decode_lossy(bytes: &[u8]) -> (r: Vec<char>)
    ensures
        r@ == utf8_lossy(bytes@),
        vstd::utf8::valid_utf8(bytes@) ==> r@ == vstd::utf8::decode_utf8(bytes@),
{
    String::from_utf8_lossy(bytes).chars().collect()
}

// ---------------------------------------------------------------- SSH

/// The text after the second `-` (`splitn(3, '-').nth(2)`), or nothing.
pub open spec fn after_second_dash(t: Seq<char>) -> Seq<char> {
    let j1 = next_sep(t, '-', 0);
    let j2 = next_sep(t, '-', j1 + 1);
    if j1 < t.len() && j2 < t.len() {
        t.subrange(j2 + 1, t.len() as int)
    } else {
        Seq::empty()
    }
}

/// The fingerprint of an SSH identification line such as `SSH-2.0-OpenSSH_9.9p1 Debian`:
/// the first word of the software field, split at its first `_` into product and version.
pub open spec fn ssh_fingerprint(text: Seq<char>) -> FingerprintView {
    let software = after_second_dash(trim(text));
    let token = match first_word(software) {
        Some(w) => w,
        None => Seq::empty(),
    };
    let (product, version) = match split_once(token, '_') {
        Some((p, v)) => (p, v),
        None => (token, Seq::empty()),
    };
    (Some("ssh"@), nonempty_text(product), nonempty_text(version))
}

/// The fingerprint of a decoded SSH identification line.
pub fn parse_ssh_text(text: &[char]) -> (r: Fingerprint)
    ensures
        r@ == ssh_fingerprint(text@),
{
    let t = trim_chars(text);
    let n = t.len();
    let mut j1: usize = 0;
    while j1 < n && t[j1] != '-'
        invariant
            n == t@.len(),
            0 <= j1 <= n,
            forall|m: int| 0 <= m < j1 ==> t@[m] != '-',
        decreases n - j1,
    {
        j1 = j1 + 1;
    }
    proof {
        lemma_next_sep(t@, '-', 0, j1 as int);
    }
    let mut software: Vec<char> = Vec::new();
    if j1 < n {
        let mut j2: usize = j1 + 1;
        while j2 < n && t[j2] != '-'
            invariant
                n == t@.len(),
                j1 < j2 <= n,
                forall|m: int| j1 + 1 <= m < j2 ==> t@[m] != '-',
            decreases n - j2,
        {
            j2 = j2 + 1;
        }
        proof {
            lemma_next_sep(t@, '-', j1 + 1, j2 as int);
        }
        if j2 < n {
            software = slice_of(&t, j2 + 1, n);
        }
    }
    assert(software@ == after_second_dash(trim(text@)));
    let token = match first_word_chars(&software) {
        Some(w) => w,
        None => Vec::new(),
    };
    let (product, version) = match split_once_chars(&token, '_') {
        Some((p, v)) => (p, v),
        None => (token, Vec::new()),
    };
    Fingerprint {
        service: Some(String::from_str("ssh")),
        product: nonempty(&product),
        version: nonempty(&version),
    }
}

// ---------------------------------------------------------------- MySQL

/// The first index at or after `i` holding a zero byte, or the length.
pub open spec fn zero_from(b: Seq<u8>, i: int) -> int
    decreases b.len() - i,
{
    if i < 0 || i >= b.len() {
        b.len() as int
    } else if b[i] == 0 {
        i
    } else {
        zero_from(b, i + 1)
    }
}

proof fn lemma_zero_from(b: Seq<u8>, i: int, k: int)
    requires
        0 <= i <= k <= b.len(),
        forall|m: int| i <= m < k ==> b[m] != 0,
        k == b.len() || b[k] == 0,
    ensures
        zero_from(b, i) == k,
    decreases k - i,
{
    if i < k {
        lemma_zero_from(b, i + 1, k);
    }
}

/// `u8::is_ascii_graphic`.
pub open spec fn graphic(b: u8) -> bool {
    0x21 <= b <= 0x7e
}

/// A MySQL/MariaDB server greeting: a 3-byte little-endian payload length of at least 6,
/// a sequence byte, protocol version 10, then a non-empty printable version text ended
/// by a zero byte.
pub open spec fn mysql_handshake(b: Seq<u8>) -> bool {
    &&& b.len() >= 6
    &&& b[4] == 0x0a
    &&& b[0] + b[1] * 256 + b[2] * 65536 >= 6
    &&& 5 < zero_from(b, 5) < b.len()
    &&& forall|i: int| 5 <= i < zero_from(b, 5) ==> graphic(#[trigger] b[i])
}

/// Whether the banner is a MySQL/MariaDB server greeting.
fn is_mysql_handshake(banner: &[u8]) -> (r: bool)
    ensures
        r == mysql_handshake(banner@),
{
    let n = banner.len();
    if n < 6 || banner[4] != 0x0a {
        return false;
    }
    let declared: u32 = banner[0] as u32 + banner[1] as u32 * 256 + banner[2] as u32 * 65536;
    if declared < 6 {
        return false;
    }
    let mut z: usize = 5;
    while z < n && banner[z] != 0
        invariant
            n == banner@.len(),
            5 <= z <= n,
            forall|m: int| 5 <= m < z ==> banner@[m] != 0,
        decreases n - z,
    {
        z = z + 1;
    }
    proof {
        lemma_zero_from(banner@, 5, z as int);
    }
    if z == n || z == 5 {
        return false;
    }
    let mut i: usize = 5;
    while i < z
        invariant
            n == banner@.len(),
            5 <= i <= z < n,
            z == zero_from(banner@, 5),
            forall|m: int| 5 <= m < i ==> graphic(#[trigger] banner@[m]),
        decreases z - i,
    {
        if !(0x21 <= banner[i] && banner[i] <= 0x7e) {
            return false;
        }
        i = i + 1;
    }
    true
}

/// The version text of a MySQL greeting: the bytes from offset 5 up to the first zero.
pub open spec fn mysql_version_bytes(b: Seq<u8>) -> Seq<u8> {
    b.subrange(5, zero_from(b, 5))
}

/// The fingerprint of a MySQL greeting.
pub open spec fn mysql_fingerprint(b: Seq<u8>) -> FingerprintView {
    (Some("mysql"@), Some("MySQL"@), nonempty_text(utf8_lossy(mysql_version_bytes(b))))
}

proof fn lemma_zero_from_bounds(b: Seq<u8>, i: int)
    requires
        0 <= i <= b.len(),
    ensures
        i <= zero_from(b, i) <= b.len(),
    decreases b.len() - i,
{
    if i < b.len() && b[i] != 0 {
        lemma_zero_from_bounds(b, i + 1);
    }
}

fn parse_mysql(banner: &[u8]) -> (r: Fingerprint)
    requires
        banner@.len() >= 5,
    ensures
        r@ == mysql_fingerprint(banner@),
{
    let n = banner.len();
    let mut z: usize = 5;
    while z < n && banner[z] != 0
        invariant
            n == banner@.len(),
            5 <= z <= n,
            forall|m: int| 5 <= m < z ==> banner@[m] != 0,
        decreases n - z,
    {
        z = z + 1;
    }
    proof {
        lemma_zero_from(banner@, 5, z as int);
    }
    let mut segment: Vec<u8> = Vec::new();
    let mut i: usize = 5;
    while i < z
        invariant
            n == banner@.len(),
            5 <= i <= z <= n,
            segment@ == banner@.subrange(5, i as int),
        decreases z - i,
    {
        segment.push(banner[i]);
        i = i + 1;
    }
    let version = decode_lossy(segment.as_slice());
    Fingerprint {
        service: Some(String::from_str("mysql")),
        product: Some(String::from_str("MySQL")),
        version: nonempty(&version),
    }
}

// ---------------------------------------------------------------- HTTP

/// `a.eq_ignore_ascii_case(b)`.
pub open spec fn eq_ignore_case(a: Seq<char>, b: Seq<char>) -> bool {
    lower_all(a) == lower_all(b)
}

/// The trimmed value of the first `Server:` header among `ls[i..]`.
pub open spec fn server_header_from(ls: Seq<Seq<char>>, i: int) -> Option<Seq<char>>
    decreases ls.len() - i,
{
    if i < 0 || i >= ls.len() {
        None
    } else {
        match split_once(ls[i], ':') {
            Some((name, value)) => if eq_ignore_case(name, "server"@) {
                Some(trim(value))
            } else {
                server_header_from(ls, i + 1)
            },
            None => server_header_from(ls, i + 1),
        }
    }
}

/// Product and version from a `Server:` value such as `nginx/1.27.0 (Ubuntu)`.
pub open spec fn server_product(server: Option<Seq<char>>) -> (Seq<char>, Seq<char>) {
    match server {
        Some(value) => match first_word(value) {
            Some(token) => match split_once(token, '/') {
                Some((p, v)) => (p, v),
                None => (token, Seq::empty()),
            },
            None => (Seq::empty(), Seq::empty()),
        },
        None => (Seq::empty(), Seq::empty()),
    }
}

proof fn lemma_skip_ws_stops(s: Seq<char>, i: int)
    requires
        0 <= i <= s.len(),
    ensures
        i <= skip_ws(s, i) <= s.len(),
        forall|m: int| i <= m < skip_ws(s, i) ==> is_white_space(#[trigger] s[m]),
        skip_ws(s, i) < s.len() ==> !is_white_space(s[skip_ws(s, i)]),
    decreases s.len() - i,
{
    if i < s.len() && is_white_space(s[i]) {
        lemma_skip_ws_stops(s, i + 1);
    }
}

proof fn lemma_next_ws_stops(s: Seq<char>, i: int)
    requires
        0 <= i <= s.len(),
    ensures
        i <= next_ws(s, i) <= s.len(),
        forall|m: int| i <= m < next_ws(s, i) ==> !is_white_space(#[trigger] s[m]),
        next_ws(s, i) < s.len() ==> is_white_space(s[next_ws(s, i)]),
    decreases s.len() - i,
{
    if i < s.len() && !is_white_space(s[i]) {
        lemma_next_ws_stops(s, i + 1);
    }
}

/// Product and version from a `Server` value `v`. Neither holds white space, and the
/// product holds no `/`. When `v` is all white space both are empty; otherwise the first
/// word of `v` (its first run of characters that are not white space, from `a` up to
/// `k`) is either the product, a `/` and the version, or the product alone. So
/// `Apache/2.4.41 (Ubuntu)` gives `Apache` and `2.4.41`.
pub proof fn server_product_is_the_first_word_split_at_its_slash(v: Seq<char>)
    ensures
        ({
            let (product, version) = server_product(Some(v));
            &&& forall|m: int|
                0 <= m < product.len() ==> !is_white_space(#[trigger] product[m]) && product[m]
                    != '/'
            &&& forall|m: int| 0 <= m < version.len() ==> !is_white_space(#[trigger] version[m])
            &&& (forall|m: int| 0 <= m < v.len() ==> is_white_space(#[trigger] v[m])) ==> (
            product.len() == 0 && version.len() == 0)
            &&& (exists|m: int| 0 <= m < v.len() && !is_white_space(#[trigger] v[m])) ==> (
            exists|a: int, k: int|
                #![trigger v.subrange(a, k)]
                {
                    &&& 0 <= a < k <= v.len()
                    &&& forall|m: int| 0 <= m < a ==> is_white_space(#[trigger] v[m])
                    &&& (k == v.len() || is_white_space(v[k]))
                    &&& (v.subrange(a, k) == product + seq!['/'] + version || (v.subrange(a, k)
                        == product && version.len() == 0))
                })
        }),
{
    let (product, version) = server_product(Some(v));
    lemma_skip_ws_stops(v, 0);
    let a = skip_ws(v, 0);
    if a < v.len() {
        lemma_next_ws_stops(v, a);
        let k = next_ws(v, a);
        let token = v.subrange(a, k);
        assert(first_word(v) == Some(token));
        lemma_next_sep_bounds(token, '/', 0);
        let j = next_sep(token, '/', 0);
        if j < token.len() {
            assert(product == token.subrange(0, j));
            assert(version == token.subrange(j + 1, token.len() as int));
            assert(token =~= product + seq!['/'] + version);
        } else {
            assert(product == token);
            assert(version.len() == 0);
        }
        assert(v.subrange(a, k) == token);
        assert(!is_white_space(v[a]));
    } else {
        assert(first_word(v) is None);
        assert forall|m: int| 0 <= m < v.len() implies is_white_space(#[trigger] v[m]) by {}
    }
}

/// The fingerprint of an HTTP response: `https` on 443 and 8443, `http` elsewhere, with
/// product and version from the `Server` header.
pub open spec fn http_fingerprint(text: Seq<char>, port: u16) -> FingerprintView {
    let (product, version) = server_product(server_header_from(lines(text), 0));
    (
        Some(
            if port == 443 || port == 8443 {
                "https"@
            } else {
                "http"@
            },
        ),
        nonempty_text(product),
        nonempty_text(version),
    )
}

/// The fingerprint of a decoded HTTP response.
pub fn parse_http(text: &[char], port: u16) -> (r: Fingerprint)
    ensures
        r@ == http_fingerprint(text@, port),
{
    let ls = lines_chars(text);
    let server_name = chars_of("server");
    let lower_server = lower_chars(&server_name);
    let mut server: Option<Vec<char>> = None;
    let mut i: usize = 0;
    while i < ls.len() && server.is_none()
        invariant
            0 <= i <= ls@.len(),
            views(ls@) == lines(text@),
            server_name@ == "server"@,
            lower_server@ == lower_all("server"@),
            match server {
                Some(v) => server_header_from(views(ls@), 0) == Some(v@),
                None => server_header_from(views(ls@), i as int) == server_header_from(
                    views(ls@),
                    0,
                ),
            },
        decreases ls@.len() - i,
    {
        let line = &ls[i];
        assert(views(ls@)[i as int] == line@);
        match split_once_chars(line, ':') {
            Some((name, value)) => {
                let lower_name = lower_chars(&name);
                if chars_eq(&lower_name, &lower_server) {
                    server = Some(trim_chars(&value));
                }
            },
            None => {},
        }
        i = i + 1;
    }
    let (product, version) = match server {
        Some(value) => match first_word_chars(&value) {
            Some(token) => match split_once_chars(&token, '/') {
                Some((p, v)) => (p, v),
                None => (token, Vec::new()),
            },
            None => (Vec::new(), Vec::new()),
        },
        None => (Vec::new(), Vec::new()),
    };
    let name = if port == 443 || port == 8443 {
        String::from_str("https")
    } else {
        String::from_str("http")
    };
    Fingerprint { service: Some(name), product: nonempty(&product), version: nonempty(&version) }
}

// ---------------------------------------------------------------- identification

/// The fingerprint of a banner that is neither SSH nor a MySQL greeting, from its decoded
/// text (`text`), matched case-insensitively, and from its raw bytes (`banner`).
pub open spec fn text_fingerprint(port: u16, banner: Seq<u8>, text: Seq<char>) -> FingerprintView {
    let lower = lower_all(text);
    if starts_with(lower, "http/"@) {
        http_fingerprint(text, port)
    } else if starts_with(lower, "+pong"@) || (starts_with(lower, "-err"@) && contains(
        lower,
        "redis"@,
    )) {
        named("redis"@)
    } else if starts_with(lower, "+ok"@) {
        named("pop3"@)
    } else if starts_with(lower, "* ok"@) || starts_with(lower, "* preauth"@) {
        named("imap"@)
    } else if starts_with(lower, "220"@) && (contains(lower, "smtp"@) || contains(
        lower,
        "esmtp"@,
    )) {
        named("smtp"@)
    } else if starts_with(lower, "220"@) && (contains(lower, "ftp"@) || port == 21) {
        named("ftp"@)
    } else if banner == seq![0x53u8] || banner == seq![0x4eu8] {
        named("postgresql"@)
    } else {
        port_fingerprint(port)
    }
}

/// The bytes `SSH-`.
pub open spec fn ssh_prefix() -> Seq<u8> {
    seq![0x53u8, 0x53u8, 0x48u8, 0x2du8]
}

/// The fingerprint of the first bytes a service on `port` sent.
pub open spec fn banner_fingerprint(port: u16, banner: Seq<u8>) -> FingerprintView {
    if ssh_prefix().len() <= banner.len() && banner.subrange(0, 4) == ssh_prefix() {
        ssh_fingerprint(utf8_lossy(banner))
    } else if mysql_handshake(banner) {
        mysql_fingerprint(banner)
    } else {
        text_fingerprint(port, banner, utf8_lossy(banner))
    }
}

/// Identifies a service from a decoded banner: `text` is the banner `banner` decoded.
pub fn identify_text(port: u16, banner: &[u8], text: &[char]) -> (r: Fingerprint)
    ensures
        r@ == text_fingerprint(port, banner@, text@),
{
    let lower = lower_chars(text);
    if starts_with_chars(&lower, &chars_of("http/")) {
        return parse_http(text, port);
    }
    if starts_with_chars(&lower, &chars_of("+pong")) || (starts_with_chars(
        &lower,
        &chars_of("-err"),
    ) && contains_chars(&lower, &chars_of("redis"))) {
        return service("redis");
    }
    if starts_with_chars(&lower, &chars_of("+ok")) {
        return service("pop3");
    }
    if starts_with_chars(&lower, &chars_of("* ok")) || starts_with_chars(
        &lower,
        &chars_of("* preauth"),
    ) {
        return service("imap");
    }
    if starts_with_chars(&lower, &chars_of("220")) {
        if contains_chars(&lower, &chars_of("smtp")) || contains_chars(&lower, &chars_of("esmtp")) {
            return service("smtp");
        }
        if contains_chars(&lower, &chars_of("ftp")) || port == 21 {
            return service("ftp");
        }
    }
    if banner.len() == 1 && (banner[0] == 0x53 || banner[0] == 0x4e) {
        assert(banner@ == seq![0x53u8] || banner@ == seq![0x4eu8]);
        return service("postgresql");
    }
    assert(!(banner@ == seq![0x53u8] || banner@ == seq![0x4eu8]));
    port_fallback(port)
}

/// Identifies the service on `port` from the first bytes it sent: SSH identification
/// lines, MySQL greetings, HTTP responses, Redis, POP3, IMAP, SMTP, FTP and PostgreSQL
/// replies, and otherwise the port's conventional service.
pub fn identify(port: u16, banner: &[u8]) -> (r: Fingerprint)
    ensures
        r@ == banner_fingerprint(port, banner@),
{
    if banner.len() >= 4 && banner[0] == 0x53 && banner[1] == 0x53 && banner[2] == 0x48
        && banner[3] == 0x2d {
        assert(banner@.subrange(0, 4) =~= ssh_prefix());
        let text = decode_lossy(banner);
        return parse_ssh_text(&text);
    }
    assert(!(ssh_prefix().len() <= banner@.len() && banner@.subrange(0, 4) == ssh_prefix())) by {
        if banner@.len() >= 4 && banner@.subrange(0, 4) == ssh_prefix() {
            assert(banner@.subrange(0, 4)[0] == banner@[0]);
            assert(banner@.subrange(0, 4)[1] == banner@[1]);
            assert(banner@.subrange(0, 4)[2] == banner@[2]);
            assert(banner@.subrange(0, 4)[3] == banner@[3]);
        }
    }
    if is_mysql_handshake(banner) {
        return parse_mysql(banner);
    }
    let text = decode_lossy(banner);
    identify_text(port, banner, &text)
}

} // verus!
