//! Textual IP addresses, read and written as the standard library's `IpAddr` does.
use vstd::prelude::*;
use crate::text::{
    chars_of, decimal, digits_value, is_digit, lemma_decimal_reads_back, lemma_next_sep,
    lemma_next_sep_bounds, lemma_split_append, lemma_split_without, next_sep, push_all,
    push_decimal, slice_of, split, split_chars, split_from, string_from, views,
};

verus! {

// ---------------------------------------------------------------- IPv4

/// A decimal octet as `Ipv4Addr::from_str` accepts it: one to three digits, at most 255,
/// and no leading zero unless the octet is `0` itself.
pub open spec fn octet(p: Seq<char>) -> Option<u8> {
    if 1 <= p.len() <= 3 && (forall|i: int| 0 <= i < p.len() ==> is_digit(#[trigger] p[i]))
        && digits_value(p) <= 255 && (p.len() == 1 || p[0] != '0') {
        Some(digits_value(p) as u8)
    } else {
        None
    }
}

/// `Ipv4Addr::from_str`: four octets separated by dots, as the 32-bit address.
pub open spec fn ipv4_parse(s: Seq<char>) -> Option<u32> {
    let ps = split(s, '.');
    if ps.len() == 4 && octet(ps[0]) is Some && octet(ps[1]) is Some && octet(ps[2]) is Some
        && octet(ps[3]) is Some {
        Some(
            (octet(ps[0])->0 as int * 0x1000000 + octet(ps[1])->0 as int * 0x10000 + octet(
                ps[2],
            )->0 as int * 0x100 + octet(ps[3])->0 as int) as u32,
        )
    } else {
        None
    }
}

/// `10^n`.
pub open spec fn pow10(n: nat) -> nat
    decreases n,
{
    if n == 0 {
        1
    } else {
        10 * pow10((n - 1) as nat)
    }
}

pub proof fn lemma_digits_value_bound(p: Seq<char>)
    requires
        forall|i: int| 0 <= i < p.len() ==> is_digit(#[trigger] p[i]),
    ensures
        digits_value(p) < pow10(p.len()),
    decreases p.len(),
{
    if p.len() > 0 {
        let q = p.drop_last();
        assert(forall|i: int| 0 <= i < q.len() ==> is_digit(#[trigger] q[i]) && q[i] == p[i]);
        lemma_digits_value_bound(q);
        assert(is_digit(p[p.len() - 1]));
        let d = ((p.last() as u32) - 48) as nat;
        let v = digits_value(q);
        let pw = pow10(q.len());
        assert(v * 10 + d < pw * 10) by (nonlinear_arith)
            requires
                v < pw,
                d < 10,
        ;
    }
}

proof fn lemma_digits_value_small(p: Seq<char>)
    requires
        forall|i: int| 0 <= i < p.len() ==> is_digit(#[trigger] p[i]),
    ensures
        p.len() <= 3 ==> digits_value(p) < 1000,
{
    lemma_digits_value_bound(p);
    reveal_with_fuel(pow10, 4);
}

fn digit_val(c: char) -> (r: u32)
    requires
        '0' <= c <= '9',
    ensures
        r == (c as u32) - 48,
        r < 10,
{
    (c as u32) - 48
}

/// Reads one octet.
fn read_octet(p: &[char]) -> (r: Option<u8>)
    ensures
        r == octet(p@),
{
    let n = p.len();
    if n < 1 || n > 3 {
        return None;
    }
    let mut v: u32 = 0;
    let mut i: usize = 0;
    while i < n
        invariant
            n == p@.len(),
            1 <= n <= 3,
            0 <= i <= n,
            forall|m: int| 0 <= m < i ==> is_digit(#[trigger] p@[m]),
            v == digits_value(p@.subrange(0, i as int)),
            v < 1000,
        decreases n - i,
    {
        if !('0' <= p[i] && p[i] <= '9') {
            assert(!is_digit(p@[i as int]));
            return None;
        }
        let d = digit_val(p[i]);
        proof {
            assert(p@.subrange(0, i + 1).drop_last() =~= p@.subrange(0, i as int));
            lemma_digits_value_small(p@.subrange(0, i + 1));
        }
        v = v * 10 + d;
        i = i + 1;
    }
    assert(p@.subrange(0, n as int) =~= p@);
    if v > 255 || (n > 1 && p[0] == '0') {
        return None;
    }
    Some(v as u8)
}

/// Reads a dotted-quad IPv4 address.
pub fn parse_ipv4(s: &[char]) -> (r: Option<u32>)
    ensures
        r == ipv4_parse(s@),
{
    let ps = split_chars(s, '.');
    assert(views(ps@).len() == ps@.len());
    if ps.len() != 4 {
        return None;
    }
    assert(views(ps@)[0] == ps@[0]@);
    assert(views(ps@)[1] == ps@[1]@);
    assert(views(ps@)[2] == ps@[2]@);
    assert(views(ps@)[3] == ps@[3]@);
    let a = match read_octet(&ps[0]) {
        Some(v) => v,
        None => return None,
    };
    let b = match read_octet(&ps[1]) {
        Some(v) => v,
        None => return None,
    };
    let c = match read_octet(&ps[2]) {
        Some(v) => v,
        None => return None,
    };
    let d = match read_octet(&ps[3]) {
        Some(v) => v,
        None => return None,
    };
    Some(a as u32 * 0x1000000 + b as u32 * 0x10000 + c as u32 * 0x100 + d as u32)
}

/// Dotted-decimal text of an IPv4 address, as `Ipv4Addr`'s `Display` writes it.
pub open spec fn ipv4_display(v: u32) -> Seq<char> {
    decimal((v / 0x1000000) as nat) + "."@ + decimal(((v / 0x10000) % 256) as nat) + "."@
        + decimal(((v / 0x100) % 256) as nat) + "."@ + decimal((v % 256) as nat)
}

proof fn lemma_split_piece(s: Seq<char>, i: int, k: int)
    requires
        0 <= i <= k < s.len(),
        forall|m: int| i <= m < k ==> s[m] != '.',
        s[k] == '.',
    ensures
        split_from(s, '.', i) == seq![s.subrange(i, k)] + split_from(s, '.', k + 1),
{
    lemma_next_sep(s, '.', i, k);
}

proof fn lemma_split_last(s: Seq<char>, i: int)
    requires
        0 <= i <= s.len(),
        forall|m: int| i <= m < s.len() ==> s[m] != '.',
    ensures
        split_from(s, '.', i) == seq![s.subrange(i, s.len() as int)],
{
    lemma_next_sep(s, '.', i, s.len() as int);
}

proof fn lemma_octet_reads_back(n: nat)
    requires
        n < 256,
    ensures
        octet(decimal(n)) == Some(n as u8),
        forall|k: int| 0 <= k < decimal(n).len() ==> #[trigger] decimal(n)[k] != '.',
{
    lemma_decimal_reads_back(n);
    assert forall|k: int| 0 <= k < decimal(n).len() implies #[trigger] decimal(n)[k] != '.' by {
        assert(is_digit(decimal(n)[k]));
    }
}

/// The text of an IPv4 address is made of digits and dots and starts with a digit.
pub proof fn lemma_ipv4_text_chars(v: u32)
    ensures
        forall|k: int|
            0 <= k < ipv4_display(v).len() ==> is_digit(#[trigger] ipv4_display(v)[k])
                || ipv4_display(v)[k] == '.',
        ipv4_display(v).len() >= 1,
        is_digit(ipv4_display(v)[0]),
{
    let a = decimal((v / 0x1000000) as nat);
    let b = decimal(((v / 0x10000) % 256) as nat);
    let c = decimal(((v / 0x100) % 256) as nat);
    let d = decimal((v % 256) as nat);
    lemma_decimal_reads_back((v / 0x1000000) as nat);
    lemma_decimal_reads_back(((v / 0x10000) % 256) as nat);
    lemma_decimal_reads_back(((v / 0x100) % 256) as nat);
    lemma_decimal_reads_back((v % 256) as nat);
    let s = ipv4_display(v);
    reveal_strlit(".");
    assert(s =~= a + "."@ + b + "."@ + c + "."@ + d);
    assert forall|k: int| 0 <= k < s.len() implies is_digit(#[trigger] s[k]) || s[k] == '.' by {
        let l1 = a.len() as int;
        let l2 = l1 + 1 + b.len();
        let l3 = l2 + 1 + c.len();
        if k < l1 {
            assert(s[k] == a[k]);
        } else if k == l1 || k == l2 || k == l3 {
            assert(s[k] == '.');
        } else if k < l2 {
            assert(s[k] == b[k - l1 - 1]);
        } else if k < l3 {
            assert(s[k] == c[k - l2 - 1]);
        } else {
            assert(s[k] == d[k - l3 - 1]);
        }
    }
    assert(s[0] == a[0]);
}

/// The dotted-decimal text of an IPv4 address reads back as that address.
#[verifier::spinoff_prover]
#[verifier::rlimit(40)]
pub proof fn ipv4_text_reads_back(v: u32)
    ensures
        ipv4_parse(ipv4_display(v)) == Some(v),
        address_of(address_text(IpAddress::V4(v))) == Some(IpAddress::V4(v)),
{
    let y0: u32 = v / 0x1000000;
    let y1: u32 = (v / 0x10000) % 256;
    let y2: u32 = (v / 0x100) % 256;
    let y3: u32 = v % 256;
    assert(y0 < 256) by (bit_vector)
        requires
            y0 == v / 0x1000000,
    ;
    assert(y0 * 0x1000000 + y1 * 0x10000 + y2 * 0x100 + y3 == v) by (bit_vector)
        requires
            y0 == v / 0x1000000,
            y1 == (v / 0x10000) % 256,
            y2 == (v / 0x100) % 256,
            y3 == v % 256,
    ;
    let x0 = y0 as nat;
    let x1 = y1 as nat;
    let x2 = y2 as nat;
    let x3 = y3 as nat;
    lemma_octet_reads_back(x0);
    lemma_octet_reads_back(x1);
    lemma_octet_reads_back(x2);
    lemma_octet_reads_back(x3);
    let a = decimal(x0);
    let b = decimal(x1);
    let c = decimal(x2);
    let d = decimal(x3);
    reveal_strlit(".");
    let s = ipv4_display(v);
    assert(s =~= a + "."@ + b + "."@ + c + "."@ + d);
    let i1 = a.len() as int;
    let i2 = i1 + 1 + b.len();
    let i3 = i2 + 1 + c.len();
    assert(s[i1] == '.' && s[i2] == '.' && s[i3] == '.');
    assert(s.subrange(0, i1) =~= a);
    assert(s.subrange(i1 + 1, i2) =~= b);
    assert(s.subrange(i2 + 1, i3) =~= c);
    assert(s.subrange(i3 + 1, s.len() as int) =~= d);
    assert forall|m: int| 0 <= m < i1 implies s[m] != '.' by {
        assert(s[m] == a[m]);
    }
    assert forall|m: int| i1 + 1 <= m < i2 implies s[m] != '.' by {
        assert(s[m] == b[m - i1 - 1]);
    }
    assert forall|m: int| i2 + 1 <= m < i3 implies s[m] != '.' by {
        assert(s[m] == c[m - i2 - 1]);
    }
    assert forall|m: int| i3 + 1 <= m < s.len() implies s[m] != '.' by {
        assert(s[m] == d[m - i3 - 1]);
    }
    lemma_split_piece(s, 0, i1);
    lemma_split_piece(s, i1 + 1, i2);
    lemma_split_piece(s, i2 + 1, i3);
    lemma_split_last(s, i3 + 1);
    assert(split(s, '.') =~= seq![a, b, c, d]);
}

/// Appends the dotted-decimal text of an IPv4 address.
pub fn push_ipv4(out: &mut Vec<char>, v: u32)
    ensures
        final(out)@ == old(out)@ + ipv4_display(v),
{
    let dot = chars_of(".");
    push_decimal(out, (v / 0x1000000) as u64);
    push_all(out, &dot);
    push_decimal(out, ((v / 0x10000) % 256) as u64);
    push_all(out, &dot);
    push_decimal(out, ((v / 0x100) % 256) as u64);
    push_all(out, &dot);
    push_decimal(out, (v % 256) as u64);
    assert(final(out)@ =~= old(out)@ + ipv4_display(v));
}

// ---------------------------------------------------------------- IPv6 text

/// An ASCII hexadecimal digit.
pub open spec fn is_hex(c: char) -> bool {
    ('0' <= c <= '9') || ('a' <= c <= 'f') || ('A' <= c <= 'F')
}

/// The value of a hexadecimal digit.
pub open spec fn hex_digit(c: char) -> nat {
    if '0' <= c <= '9' {
        ((c as u32) - 48) as nat
    } else if 'a' <= c <= 'f' {
        ((c as u32) - 87) as nat
    } else {
        ((c as u32) - 55) as nat
    }
}

/// The value of a run of hexadecimal digits.
pub open spec fn hex_value(s: Seq<char>) -> nat
    decreases s.len(),
{
    if s.len() == 0 {
        0
    } else {
        hex_value(s.drop_last()) * 16 + hex_digit(s.last())
    }
}

/// A group of an IPv6 address: one to four hexadecimal digits.
pub open spec fn hex_group(p: Seq<char>) -> Option<u16> {
    if 1 <= p.len() <= 4 && (forall|i: int| 0 <= i < p.len() ==> is_hex(#[trigger] p[i])) {
        Some(hex_value(p) as u16)
    } else {
        None
    }
}

/// The 16-bit groups of the colon-separated pieces `ps[i..]`; when `v4_ok`, the last piece
/// may instead be a dotted-quad IPv4 address, which gives two groups.
pub open spec fn groups_from(ps: Seq<Seq<char>>, i: int, v4_ok: bool) -> Option<Seq<u16>>
    decreases ps.len() - i,
{
    if i < 0 || i >= ps.len() {
        Some(Seq::empty())
    } else if i == ps.len() - 1 && v4_ok && ipv4_parse(ps[i]) is Some {
        let v = ipv4_parse(ps[i])->0;
        Some(seq![(v / 0x10000) as u16, (v % 0x10000) as u16])
    } else {
        match hex_group(ps[i]) {
            Some(g) => match groups_from(ps, i + 1, v4_ok) {
                Some(rest) => Some(seq![g] + rest),
                None => None,
            },
            None => None,
        }
    }
}

/// The groups of a colon-separated part of an IPv6 address.
pub open spec fn groups_of(part: Seq<char>, v4_ok: bool) -> Option<Seq<u16>> {
    groups_from(split(part, ':'), 0, v4_ok)
}

/// `::` begins at `i`.
pub open spec fn double_colon_at(s: Seq<char>, i: int) -> bool {
    s[i] == ':' && s[i + 1] == ':'
}

/// The first index at or after `i` where `::` begins, or the length.
pub open spec fn double_colon_from(s: Seq<char>, i: int) -> int
    decreases s.len() - i,
{
    if i < 0 || i + 1 >= s.len() {
        s.len() as int
    } else if double_colon_at(s, i) {
        i
    } else {
        double_colon_from(s, i + 1)
    }
}

/// `n` zero groups.
pub open spec fn zero_groups(n: nat) -> Seq<u16> {
    Seq::new(n, |i: int| 0u16)
}

/// The eight groups of an IPv6 address as `Ipv6Addr::from_str` reads it: either eight
/// groups, or groups before and after the first `::` (at most seven in all) with zeros in
/// between; a dotted-quad IPv4 address may stand for the last two groups, but not
/// before `::`.
pub open spec fn ipv6_groups(s: Seq<char>) -> Option<Seq<u16>> {
    let p = double_colon_from(s, 0);
    if 0 <= p < s.len() {
        let head = if p == 0 {
            Some(Seq::<u16>::empty())
        } else {
            groups_of(s.subrange(0, p), false)
        };
        let tail = if p + 2 == s.len() {
            Some(Seq::<u16>::empty())
        } else {
            groups_of(s.subrange(p + 2, s.len() as int), true)
        };
        match (head, tail) {
            (Some(h), Some(t)) => if h.len() + t.len() <= 7 {
                Some(h + zero_groups((8 - h.len() - t.len()) as nat) + t)
            } else {
                None
            },
            _ => None,
        }
    } else {
        match groups_of(s, true) {
            Some(g) => if g.len() == 8 {
                Some(g)
            } else {
                None
            },
            None => None,
        }
    }
}

/// The number whose base-65536 digits are `g`, most significant first.
pub open spec fn groups_value(g: Seq<u16>) -> nat
    decreases g.len(),
{
    if g.len() == 0 {
        0
    } else {
        groups_value(g.drop_last()) * 0x10000 + g.last() as nat
    }
}

/// `Ipv6Addr::from_str`, as the 128-bit address.
pub open spec fn ipv6_parse(s: Seq<char>) -> Option<u128> {
    match ipv6_groups(s) {
        Some(g) => Some(groups_value(g) as u128),
        None => None,
    }
}

/// `IpAddr::from_str`: `Some((is_v6, address bits))`.
pub open spec fn ip_addr_parse(s: Seq<char>) -> Option<(bool, u128)> {
    match ipv4_parse(s) {
        Some(v) => Some((false, v as u128)),
        None => match ipv6_parse(s) {
            Some(v) => Some((true, v)),
            None => None,
        },
    }
}

/// `16^n`.
pub open spec fn pow16(n: nat) -> nat
    decreases n,
{
    if n == 0 {
        1
    } else {
        16 * pow16((n - 1) as nat)
    }
}

proof fn lemma_hex_value_bound(p: Seq<char>)
    requires
        forall|i: int| 0 <= i < p.len() ==> is_hex(#[trigger] p[i]),
    ensures
        hex_value(p) < pow16(p.len()),
    decreases p.len(),
{
    if p.len() > 0 {
        let q = p.drop_last();
        assert(forall|i: int| 0 <= i < q.len() ==> is_hex(#[trigger] q[i]) && q[i] == p[i]);
        lemma_hex_value_bound(q);
        assert(is_hex(p[p.len() - 1]));
        let d = hex_digit(p.last());
        let v = hex_value(q);
        let pw = pow16(q.len());
        assert(v * 16 + d < pw * 16) by (nonlinear_arith)
            requires
                v < pw,
                d < 16,
        ;
    }
}

fn hex_digit_of(c: char) -> (r: Option<u32>)
    ensures
        match r {
            Some(d) => is_hex(c) && d == hex_digit(c) && d < 16,
            None => !is_hex(c),
        },
{
    if '0' <= c && c <= '9' {
        Some((c as u32) - 48)
    } else if 'a' <= c && c <= 'f' {
        Some((c as u32) - 87)
    } else if 'A' <= c && c <= 'F' {
        Some((c as u32) - 55)
    } else {
        None
    }
}

/// Reads one group of hexadecimal digits.
fn read_hex_group(p: &[char]) -> (r: Option<u16>)
    ensures
        r == hex_group(p@),
{
    let n = p.len();
    if n < 1 || n > 4 {
        return None;
    }
    let mut v: u32 = 0;
    let mut i: usize = 0;
    while i < n
        invariant
            n == p@.len(),
            1 <= n <= 4,
            0 <= i <= n,
            forall|m: int| 0 <= m < i ==> is_hex(#[trigger] p@[m]),
            v == hex_value(p@.subrange(0, i as int)),
            v < 0x10000,
        decreases n - i,
    {
        let d = match hex_digit_of(p[i]) {
            Some(d) => d,
            None => return None,
        };
        proof {
            assert(p@.subrange(0, i + 1).drop_last() =~= p@.subrange(0, i as int));
            lemma_hex_value_bound(p@.subrange(0, i + 1));
            reveal_with_fuel(pow16, 5);
        }
        v = v * 16 + d;
        i = i + 1;
    }
    assert(p@.subrange(0, n as int) =~= p@);
    Some(v as u16)
}

/// Reads the groups of a colon-separated part.
fn read_groups(part: &[char], v4_ok: bool) -> (r: Option<Vec<u16>>)
    ensures
        match r {
            Some(g) => groups_of(part@, v4_ok) == Some(g@),
            None => groups_of(part@, v4_ok) is None,
        },
{
    let ps = split_chars(part, ':');
    let ghost pieces = views(ps@);
    let n = ps.len();
    let mut acc: Vec<u16> = Vec::new();
    let mut i: usize = 0;
    while i < n
        invariant
            n == ps@.len(),
            pieces == views(ps@),
            pieces == split(part@, ':'),
            0 <= i <= n,
            groups_from(pieces, 0, v4_ok) == match groups_from(pieces, i as int, v4_ok) {
                Some(rest) => Some(acc@ + rest),
                None => None,
            },
        decreases n - i,
    {
        assert(pieces[i as int] == ps@[i as int]@);
        if i == n - 1 && v4_ok {
            match parse_ipv4(&ps[i]) {
                Some(v) => {
                    acc.push((v / 0x10000) as u16);
                    acc.push((v % 0x10000) as u16);
                    proof {
                        assert(groups_from(pieces, i + 1, v4_ok) == Some(Seq::<u16>::empty()));
                    }
                    return Some(acc);
                },
                None => {},
            }
        }
        match read_hex_group(&ps[i]) {
            Some(g) => {
                proof {
                    match groups_from(pieces, i + 1, v4_ok) {
                        Some(rest) => {
                            assert(acc@ + (seq![g] + rest) =~= acc@.push(g) + rest);
                        },
                        None => {},
                    }
                }
                acc.push(g);
            },
            None => return None,
        }
        i = i + 1;
    }
    assert(acc@ + Seq::<u16>::empty() =~= acc@);
    Some(acc)
}

proof fn lemma_double_colon(s: Seq<char>, i: int, k: int)
    requires
        0 <= i <= k <= s.len(),
        forall|m: int| i <= m && m + 1 < s.len() && m < k ==> !#[trigger] double_colon_at(s, m),
        k + 1 >= s.len() || double_colon_at(s, k),
    ensures
        double_colon_from(s, i) == if k + 1 >= s.len() {
            s.len() as int
        } else {
            k
        },
    decreases k - i,
{
    if i < k && i + 1 < s.len() {
        lemma_double_colon(s, i + 1, k);
    }
}

/// `65536^n`.
pub open spec fn pow65536(n: nat) -> nat
    decreases n,
{
    if n == 0 {
        1
    } else {
        0x10000 * pow65536((n - 1) as nat)
    }
}

proof fn lemma_groups_value_bound(g: Seq<u16>)
    ensures
        groups_value(g) < pow65536(g.len()),
    decreases g.len(),
{
    if g.len() > 0 {
        let q = g.drop_last();
        lemma_groups_value_bound(q);
        let d = g.last() as nat;
        let v = groups_value(q);
        let pw = pow65536(q.len());
        assert(v * 0x10000 + d < pw * 0x10000) by (nonlinear_arith)
            requires
                v < pw,
                d < 0x10000,
        ;
    }
}

proof fn lemma_pow65536_mono(a: nat, b: nat)
    requires
        a <= b,
    ensures
        pow65536(a) <= pow65536(b),
    decreases b - a,
{
    if a < b {
        lemma_pow65536_mono(a, (b - 1) as nat);
    }
}

fn groups_to_bits(g: &Vec<u16>) -> (r: u128)
    requires
        g@.len() == 8,
    ensures
        r == groups_value(g@),
{
    let mut v: u128 = 0;
    let mut i: usize = 0;
    while i < 8
        invariant
            g@.len() == 8,
            0 <= i <= 8,
            v == groups_value(g@.subrange(0, i as int)),
        decreases 8 - i,
    {
        proof {
            assert(g@.subrange(0, i + 1).drop_last() =~= g@.subrange(0, i as int));
            lemma_groups_value_bound(g@.subrange(0, i + 1));
            lemma_pow65536_mono((i + 1) as nat, 8);
            reveal_with_fuel(pow65536, 9);
        }
        v = v * 0x10000 + g[i] as u128;
        i = i + 1;
    }
    assert(g@.subrange(0, 8) =~= g@);
    v
}

/// Reads an IPv6 address.
pub fn parse_ipv6(s: &[char]) -> (r: Option<u128>)
    ensures
        r == ipv6_parse(s@),
{
    let n = s.len();
    let mut p: usize = 0;
    while n > 0 && p < n - 1 && !(s[p] == ':' && s[p + 1] == ':')
        invariant
            n == s@.len(),
            0 <= p <= n,
            forall|m: int| 0 <= m && m + 1 < s@.len() && m < p ==> !#[trigger] double_colon_at(
                s@,
                m,
            ),
        decreases n - p,
    {
        p = p + 1;
    }
    proof {
        lemma_double_colon(s@, 0, p as int);
    }
    let groups: Vec<u16> = if n > 0 && p < n - 1 {
        let head: Vec<u16> = if p == 0 {
            Vec::new()
        } else {
            match read_groups(&slice_of(s, 0, p), false) {
                Some(h) => h,
                None => return None,
            }
        };
        let tail: Vec<u16> = if p + 2 == n {
            Vec::new()
        } else {
            match read_groups(&slice_of(s, p + 2, n), true) {
                Some(t) => t,
                None => return None,
            }
        };
        if head.len() > 7 || tail.len() > 7 - head.len() {
            return None;
        }
        let mut g = head;
        let zeros = 8 - g.len() - tail.len();
        let ghost h = g@;
        let mut k: usize = 0;
        while k < zeros
            invariant
                0 <= k <= zeros,
                g@ == h + zero_groups(k as nat),
            decreases zeros - k,
        {
            g.push(0);
            k = k + 1;
            assert(g@ =~= h + zero_groups(k as nat));
        }
        let mut j: usize = 0;
        while j < tail.len()
            invariant
                0 <= j <= tail@.len(),
                g@ == h + zero_groups(zeros as nat) + tail@.subrange(0, j as int),
            decreases tail@.len() - j,
        {
            g.push(tail[j]);
            j = j + 1;
            assert(g@ =~= h + zero_groups(zeros as nat) + tail@.subrange(0, j as int));
        }
        assert(tail@.subrange(0, tail@.len() as int) =~= tail@);
        g
    } else {
        match read_groups(s, true) {
            Some(g) => if g.len() == 8 {
                g
            } else {
                return None;
            },
            None => return None,
        }
    };
    Some(groups_to_bits(&groups))
}

/// Reads an IPv4 or IPv6 address.
pub fn parse_ip_addr(s: &[char]) -> (r: Option<(bool, u128)>)
    ensures
        r == ip_addr_parse(s@),
        r matches Some((v6, bits)) ==> (!v6 ==> bits <= u32::MAX),
{
    match parse_ipv4(s) {
        Some(v) => Some((false, v as u128)),
        None => match parse_ipv6(s) {
            Some(v) => Some((true, v)),
            None => None,
        },
    }
}

// ---------------------------------------------------------------- IPv6 display

/// The last `k` base-65536 digits of `x`, most significant first.
pub open spec fn groups_of_bits(x: nat, k: nat) -> Seq<u16>
    decreases k,
{
    if k == 0 {
        Seq::empty()
    } else {
        groups_of_bits(x / 0x10000, (k - 1) as nat).push((x % 0x10000) as u16)
    }
}

/// The eight 16-bit groups of an IPv6 address (`Ipv6Addr::segments`).
pub open spec fn address_groups(bits: u128) -> Seq<u16> {
    groups_of_bits(bits as nat, 8)
}

/// The lowercase hexadecimal digit for `d < 16`.
pub open spec fn hex_char(d: nat) -> char {
    if d < 10 {
        ((d + 48) as u32) as char
    } else {
        ((d + 87) as u32) as char
    }
}

/// `format!("{:x}", n)`.
pub open spec fn hex_text(n: nat) -> Seq<char>
    decreases n,
{
    if n < 16 {
        seq![hex_char(n)]
    } else {
        hex_text(n / 16).push(hex_char(n % 16))
    }
}

/// Groups in hexadecimal, separated by colons.
pub open spec fn join_hex(g: Seq<u16>) -> Seq<char>
    decreases g.len(),
{
    if g.len() == 0 {
        Seq::empty()
    } else if g.len() == 1 {
        hex_text(g[0] as nat)
    } else {
        join_hex(g.drop_last()) + ":"@ + hex_text(g.last() as nat)
    }
}

/// The number of zero groups starting at `i`.
pub open spec fn zeros_at(g: Seq<u16>, i: int) -> nat
    decreases g.len() - i,
{
    if 0 <= i < g.len() && g[i] == 0 {
        1 + zeros_at(g, i + 1)
    } else {
        0
    }
}

/// The start and length of the first longest run of zero groups within `g[i..]`
/// (length zero when there is none).
pub open spec fn longest_zeros_from(g: Seq<u16>, i: int) -> (int, nat)
    decreases g.len() - i,
{
    if i < 0 || i >= g.len() {
        (g.len() as int, 0)
    } else {
        let rest = longest_zeros_from(g, i + 1);
        let z = zeros_at(g, i);
        if z > 0 && z >= rest.1 {
            (i, z)
        } else {
            rest
        }
    }
}

/// `Ipv6Addr`'s `Display`: `::ffff:a.b.c.d` for IPv4-mapped addresses; otherwise the
/// groups in lowercase hexadecimal, the first longest run of two or more zero groups
/// written as `::`.
pub open spec fn ipv6_display(bits: u128) -> Seq<char> {
    let g = address_groups(bits);
    if g[0] == 0 && g[1] == 0 && g[2] == 0 && g[3] == 0 && g[4] == 0 && g[5] == 0xffff {
        "::ffff:"@ + ipv4_display((g[6] as nat * 0x10000 + g[7] as nat) as u32)
    } else {
        let (start, len) = longest_zeros_from(g, 0);
        if len > 1 {
            join_hex(g.subrange(0, start)) + "::"@ + join_hex(g.subrange(start + len, 8))
        } else {
            join_hex(g)
        }
    }
}

/// The text of an address.
pub open spec fn ip_display(v6: bool, bits: u128) -> Seq<char> {
    if v6 {
        ipv6_display(bits)
    } else {
        ipv4_display(bits as u32)
    }
}

fn hex_char_of(d: u32) -> (r: char)
    requires
        d < 16,
    ensures
        r == hex_char(d as nat),
{
    if d < 10 {
        (((d as u32) + 48) as u8) as char
    } else {
        (((d as u32) + 87) as u8) as char
    }
}

/// Appends `n` in lowercase hexadecimal.
pub fn push_hex(out: &mut Vec<char>, n: u32)
    ensures
        final(out)@ == old(out)@ + hex_text(n as nat),
    decreases n,
{
    if n >= 16 {
        push_hex(out, n / 16);
    }
    out.push(hex_char_of(n % 16));
    proof {
        if n >= 16 {
            assert(old(out)@ + hex_text(n as nat) =~= old(out)@ + hex_text((n / 16) as nat)
                + seq![hex_char((n % 16) as nat)]);
        } else {
            assert(old(out)@ + hex_text(n as nat) =~= old(out)@ + seq![hex_char(n as nat)]);
        }
    }
}

fn push_join_hex(out: &mut Vec<char>, g: &Vec<u16>, from: usize, to: usize)
    requires
        from <= to <= g@.len(),
    ensures
        final(out)@ == old(out)@ + join_hex(g@.subrange(from as int, to as int)),
{
    let colon = chars_of(":");
    let mut i = from;
    while i < to
        invariant
            from <= i <= to <= g@.len(),
            colon@ == ":"@,
            out@ == old(out)@ + join_hex(g@.subrange(from as int, i as int)),
        decreases to - i,
    {
        let ghost before = out@;
        let ghost s = g@.subrange(from as int, i + 1);
        assert(s.drop_last() =~= g@.subrange(from as int, i as int));
        if i > from {
            push_all(out, &colon);
        }
        push_hex(out, g[i] as u32);
        proof {
            if i > from {
                assert(out@ =~= old(out)@ + join_hex(s));
            } else {
                assert(s =~= seq![g@[i as int]]);
                assert(out@ =~= old(out)@ + join_hex(s));
            }
        }
        i = i + 1;
    }
}

/// The eight groups of an IPv6 address.
pub fn groups_vec(bits: u128) -> (g: Vec<u16>)
    ensures
        g@ == address_groups(bits),
        g@.len() == 8,
{
    let mut g: Vec<u16> = Vec::new();
    let mut k: usize = 0;
    while k < 8
        invariant
            0 <= k <= 8,
            g@.len() == k,
            forall|m: int| 0 <= m < k ==> g@[m] == 0,
        decreases 8 - k,
    {
        g.push(0);
        k = k + 1;
    }
    let mut x: u128 = bits;
    let mut k: usize = 0;
    while k < 8
        invariant
            0 <= k <= 8,
            g@.len() == 8,
            address_groups(bits) == groups_of_bits(x as nat, (8 - k) as nat) + g@.subrange(
                8 - k,
                8,
            ),
        decreases 8 - k,
    {
        let ghost before = g@;
        g.set(7 - k, (x % 0x10000) as u16);
        proof {
            assert(g@.subrange(7 - k, 8) =~= seq![(x % 0x10000) as u16] + before.subrange(
                8 - k,
                8,
            ));
            assert(groups_of_bits(x as nat, (8 - k) as nat) == groups_of_bits(
                (x / 0x10000) as nat,
                (7 - k) as nat,
            ).push((x % 0x10000) as u16));
            assert(groups_of_bits((x / 0x10000) as nat, (7 - k) as nat) + g@.subrange(7 - k, 8)
                =~= groups_of_bits(x as nat, (8 - k) as nat) + before.subrange(8 - k, 8));
        }
        x = x / 0x10000;
        k = k + 1;
    }
    assert(g@.subrange(0, 8) =~= g@);
    assert(address_groups(bits) =~= g@);
    g
}

/// Appends the text of an IPv6 address.
pub fn push_ipv6(out: &mut Vec<char>, bits: u128)
    ensures
        final(out)@ == old(out)@ + ipv6_display(bits),
{
    let g = groups_vec(bits);
    assert(g@.subrange(0, 8) =~= g@);
    if g[0] == 0 && g[1] == 0 && g[2] == 0 && g[3] == 0 && g[4] == 0 && g[5] == 0xffff {
        push_all(out, &chars_of("::ffff:"));
        push_ipv4(out, g[6] as u32 * 0x10000 + g[7] as u32);
        assert(final(out)@ =~= old(out)@ + ipv6_display(bits));
        return;
    }
    // zeros[i] counts the zero groups starting at i; the best run is found scanning back.
    let mut best_start: usize = 8;
    let mut best_len: usize = 0;
    let mut run: usize = 0;
    let mut i: usize = 8;
    while i > 0
        invariant
            0 <= i <= 8,
            g@.len() == 8,
            run == zeros_at(g@, i as int),
            run <= 8 - i,
            (best_start as int, best_len as nat) == longest_zeros_from(g@, i as int),
            best_len <= 8,
            best_len > 0 ==> i <= best_start && best_start + best_len <= 8,
        decreases i,
    {
        i = i - 1;
        run = if g[i] == 0 {
            run + 1
        } else {
            0
        };
        if run > 0 && run >= best_len {
            best_start = i;
            best_len = run;
        }
        proof {
            lemma_zeros_at_bound(g@, i as int);
        }
    }
    if best_len > 1 {
        push_join_hex(out, &g, 0, best_start);
        push_all(out, &chars_of("::"));
        push_join_hex(out, &g, best_start + best_len, 8);
    } else {
        push_join_hex(out, &g, 0, 8);
    }
    assert(final(out)@ =~= old(out)@ + ipv6_display(bits));
}

proof fn lemma_zeros_at_bound(g: Seq<u16>, i: int)
    requires
        0 <= i <= g.len(),
    ensures
        i + zeros_at(g, i) <= g.len(),
    decreases g.len() - i,
{
    if i < g.len() && g[i] == 0 {
        lemma_zeros_at_bound(g, i + 1);
    }
}

/// Appends the text of an address.
pub fn push_ip(out: &mut Vec<char>, v6: bool, bits: u128)
    requires
        !v6 ==> bits <= u32::MAX,
    ensures
        final(out)@ == old(out)@ + ip_display(v6, bits),
{
    if v6 {
        push_ipv6(out, bits);
    } else {
        push_ipv4(out, bits as u32);
    }
}


// ---------------------------------------------------------------- addresses

/// An IP address: the 32 bits of an IPv4 address or the 128 bits of an IPv6 one.
#[derive(Debug, Clone, Copy, PartialEq, Eq, Structural)]
pub enum IpAddress {
    V4(u32),
    V6(u128),
}

/// The text of an address, as `IpAddr`'s `Display` writes it.
pub open spec fn address_text(a: IpAddress) -> Seq<char> {
    match a {
        IpAddress::V4(v) => ipv4_display(v),
        IpAddress::V6(b) => ipv6_display(b),
    }
}

/// The address a text names, as `IpAddr::from_str` reads it.
pub open spec fn address_of(s: Seq<char>) -> Option<IpAddress> {
    match ip_addr_parse(s) {
        Some((v6, bits)) => if v6 {
            Some(IpAddress::V6(bits))
        } else {
            Some(IpAddress::V4(bits as u32))
        },
        None => None,
    }
}

/// The position of an address in the order of `IpAddr`: every IPv4 address before every
/// IPv6 one, each family in numeric order.
pub open spec fn address_key(a: IpAddress) -> int {
    match a {
        IpAddress::V4(v) => v as int,
        IpAddress::V6(b) => 0x1_0000_0000 + b as int,
    }
}

/// Reads an address.
pub fn parse_address(s: &str) -> (r: Option<IpAddress>)
    ensures
        r == address_of(s@),
{
    let chars = chars_of(s);
    match parse_ip_addr(&chars) {
        Some((v6, bits)) => if v6 {
            Some(IpAddress::V6(bits))
        } else {
            Some(IpAddress::V4(bits as u32))
        },
        None => None,
    }
}

/// Whether `a` comes before `b` in the order of `IpAddr`.
pub fn address_less(a: IpAddress, b: IpAddress) -> (r: bool)
    ensures
        r == (address_key(a) < address_key(b)),
{
    match (a, b) {
        (IpAddress::V4(x), IpAddress::V4(y)) => x < y,
        (IpAddress::V4(_), IpAddress::V6(_)) => true,
        (IpAddress::V6(_), IpAddress::V4(_)) => false,
        (IpAddress::V6(x), IpAddress::V6(y)) => x < y,
    }
}

impl IpAddress {
    /// The text of the address.
    pub fn to_text(&self) -> (r: String)
        ensures
            r@ == address_text(*self),
    {
        let mut out: Vec<char> = Vec::new();
        match *self {
            IpAddress::V4(v) => push_ipv4(&mut out, v),
            IpAddress::V6(b) => push_ipv6(&mut out, b),
        }
        string_from(&out)
    }
}

// ---------------------------------------------------------------- reading back IPv6 text

proof fn lemma_hex_char(d: nat)
    requires
        d < 16,
    ensures
        is_hex(hex_char(d)),
        hex_digit(hex_char(d)) == d,
        hex_char(d) != ':',
        hex_char(d) != '.',
{
    if d < 10 {
        assert((hex_char(d) as u32) == d + 48);
    } else {
        assert((hex_char(d) as u32) == d + 87);
    }
}

proof fn lemma_hex_text(n: nat)
    requires
        n < 0x10000,
    ensures
        1 <= hex_text(n).len() <= 4,
        forall|k: int| 0 <= k < hex_text(n).len() ==> is_hex(#[trigger] hex_text(n)[k])
            && hex_text(n)[k] != ':' && hex_text(n)[k] != '.',
        hex_value(hex_text(n)) == n,
        n < 16 ==> hex_text(n).len() == 1,
        n < 0x100 ==> hex_text(n).len() <= 2,
        n < 0x1000 ==> hex_text(n).len() <= 3,
    decreases n,
{
    lemma_hex_char(n % 16);
    let t = hex_text(n);
    if n < 16 {
        assert(t.drop_last() =~= Seq::<char>::empty());
        assert(hex_value(t) == hex_value(t.drop_last()) * 16 + hex_digit(t.last()));
    } else {
        lemma_hex_text(n / 16);
        assert(t.drop_last() =~= hex_text(n / 16));
        assert(hex_value(t) == hex_value(t.drop_last()) * 16 + hex_digit(t.last()));
        assert forall|k: int| 0 <= k < t.len() implies is_hex(#[trigger] t[k]) && t[k] != ':'
            && t[k] != '.' by {
            if k < t.len() - 1 {
                assert(t[k] == hex_text(n / 16)[k]);
            }
        }
    }
}

/// A group written in hexadecimal reads back as that group, and never as an IPv4
/// address.
proof fn lemma_hex_group_reads_back(x: u16)
    ensures
        hex_group(hex_text(x as nat)) == Some(x),
        ipv4_parse(hex_text(x as nat)) is None,
{
    let t = hex_text(x as nat);
    lemma_hex_text(x as nat);
    lemma_split_without(t, '.');
}

/// The hexadecimal texts of groups.
pub open spec fn hex_pieces(h: Seq<u16>) -> Seq<Seq<char>> {
    h.map_values(|x: u16| hex_text(x as nat))
}

proof fn lemma_join_hex_shape(h: Seq<u16>)
    requires
        h.len() >= 1,
    ensures
        split(join_hex(h), ':') == hex_pieces(h),
        join_hex(h).len() >= 1,
        join_hex(h)[0] != ':',
        join_hex(h).last() != ':',
        forall|k: int| 0 <= k < join_hex(h).len() ==> #[trigger] join_hex(h)[k] != '.',
        forall|k: int|
            0 <= k < join_hex(h).len() - 1 ==> !(#[trigger] join_hex(h)[k] == ':' && join_hex(h)[k
                + 1] == ':'),
    decreases h.len(),
{
    reveal_strlit(":");
    let j = join_hex(h);
    let t = hex_text(h.last() as nat);
    lemma_hex_text(h.last() as nat);
    if h.len() == 1 {
        lemma_hex_text(h[0] as nat);
        lemma_split_without(j, ':');
        assert(hex_pieces(h) =~= seq![j]);
    } else {
        let q = h.drop_last();
        let jq = join_hex(q);
        lemma_join_hex_shape(q);
        assert(j == jq + ":"@ + t);
        assert(":"@ =~= seq![':']);
        lemma_split_append(jq, ':', t);
        assert(hex_pieces(h) =~= hex_pieces(q).push(t));
        assert(j[0] == jq[0]);
        assert(j.last() == t.last());
        assert forall|k: int| 0 <= k < j.len() implies #[trigger] j[k] != '.' by {
            if k < jq.len() {
                assert(j[k] == jq[k]);
            } else if k > jq.len() {
                assert(j[k] == t[k - jq.len() - 1]);
            }
        }
        assert forall|k: int| 0 <= k < j.len() - 1 implies !(#[trigger] j[k] == ':' && j[k + 1]
            == ':') by {
            if k < jq.len() - 1 {
                assert(j[k] == jq[k] && j[k + 1] == jq[k + 1]);
            } else if k == jq.len() - 1 {
                assert(j[k] == jq.last());
            } else if k == jq.len() {
                assert(j[k + 1] == t[0]);
            } else {
                assert(j[k] == t[k - jq.len() - 1]);
            }
        }
    }
}

proof fn lemma_groups_from_hex(h: Seq<u16>, i: int, v4_ok: bool)
    requires
        0 <= i <= h.len(),
    ensures
        groups_from(hex_pieces(h), i, v4_ok) == Some(h.subrange(i, h.len() as int)),
    decreases h.len() - i,
{
    let ps = hex_pieces(h);
    if i < h.len() {
        lemma_hex_group_reads_back(h[i]);
        assert(ps[i] == hex_text(h[i] as nat));
        lemma_groups_from_hex(h, i + 1, v4_ok);
        assert(seq![h[i]] + h.subrange(i + 1, h.len() as int) =~= h.subrange(i, h.len() as int));
    } else {
        assert(h.subrange(i, h.len() as int) =~= Seq::<u16>::empty());
    }
}

/// Groups written as `join_hex` read back as those groups.
proof fn lemma_join_hex_reads_back(h: Seq<u16>, v4_ok: bool)
    requires
        h.len() >= 1,
    ensures
        groups_of(join_hex(h), v4_ok) == Some(h),
{
    lemma_join_hex_shape(h);
    lemma_groups_from_hex(h, 0, v4_ok);
    assert(h.subrange(0, h.len() as int) =~= h);
}

proof fn lemma_zeros_at_run(g: Seq<u16>, i: int)
    requires
        0 <= i <= g.len(),
    ensures
        i + zeros_at(g, i) <= g.len(),
        forall|k: int| i <= k < i + zeros_at(g, i) ==> g[k] == 0,
    decreases g.len() - i,
{
    if i < g.len() && g[i] == 0 {
        lemma_zeros_at_run(g, i + 1);
    }
}

proof fn lemma_longest_zeros(g: Seq<u16>, i: int)
    requires
        0 <= i <= g.len(),
    ensures
        longest_zeros_from(g, i).1 > 0 ==> i <= longest_zeros_from(g, i).0 < g.len()
            && longest_zeros_from(g, i).1 == zeros_at(g, longest_zeros_from(g, i).0),
    decreases g.len() - i,
{
    if i < g.len() {
        lemma_longest_zeros(g, i + 1);
    }
}

proof fn lemma_pow65536_positive(k: nat)
    ensures
        pow65536(k) > 0,
    decreases k,
{
    if k > 0 {
        lemma_pow65536_positive((k - 1) as nat);
    }
}

proof fn lemma_groups_of_bits_value(x: nat, k: nat)
    ensures
        groups_of_bits(x, k).len() == k,
        groups_value(groups_of_bits(x, k)) == x % pow65536(k),
    decreases k,
{
    if k == 0 {
        assert(groups_of_bits(x, k) =~= Seq::<u16>::empty());
    } else {
        let q = groups_of_bits(x, k);
        lemma_groups_of_bits_value(x / 0x10000, (k - 1) as nat);
        lemma_pow65536_positive((k - 1) as nat);
        assert(q.drop_last() =~= groups_of_bits(x / 0x10000, (k - 1) as nat));
        assert(groups_value(q) == groups_value(q.drop_last()) * 0x10000 + q.last() as nat);
        vstd::arithmetic::div_mod::lemma_mod_breakdown(
            x as int,
            0x10000,
            pow65536((k - 1) as nat) as int,
        );
        assert(((x / 0x10000) % pow65536((k - 1) as nat)) * 0x10000 == 0x10000 * ((x / 0x10000)
            % pow65536((k - 1) as nat)));
    }
}

/// The eight groups of an address are worth the address.
proof fn lemma_address_groups_value(b: u128)
    ensures
        address_groups(b).len() == 8,
        groups_value(address_groups(b)) == b,
{
    lemma_groups_of_bits_value(b as nat, 8);
    assert(pow65536(8) == 0x1_0000_0000_0000_0000_0000_0000_0000_0000) by {
        reveal_with_fuel(pow65536, 9);
    }
    vstd::arithmetic::div_mod::lemma_small_mod(b as nat, pow65536(8));
}

/// Text that begins with a character that is not a digit never reads as IPv4.
proof fn lemma_not_ipv4(s: Seq<char>)
    requires
        s.len() >= 1,
        !is_digit(s[0]),
        s[0] != '.',
    ensures
        ipv4_parse(s) is None,
{
    let j = next_sep(s, '.', 0);
    lemma_next_sep_bounds(s, '.', 0);
    if 0 <= j < s.len() {
        assert(split(s, '.')[0] == s.subrange(0, j));
        assert(s.subrange(0, j)[0] == s[0]);
    }
}

/// Text without a dot never reads as IPv4.
proof fn lemma_no_dot_not_ipv4(s: Seq<char>)
    requires
        forall|k: int| 0 <= k < s.len() ==> s[k] != '.',
    ensures
        ipv4_parse(s) is None,
{
    lemma_split_without(s, '.');
}

#[verifier::spinoff_prover]
#[verifier::rlimit(50)]
proof fn lemma_mapped_reads_back(b: u128)
    requires
        address_groups(b)[0] == 0,
        address_groups(b)[1] == 0,
        address_groups(b)[2] == 0,
        address_groups(b)[3] == 0,
        address_groups(b)[4] == 0,
        address_groups(b)[5] == 0xffff,
    ensures
        ipv6_groups(ipv6_display(b)) == Some(address_groups(b)),
        ipv4_parse(ipv6_display(b)) is None,
{
    lemma_address_groups_value(b);
    let g = address_groups(b);
    let hi = g[6] as nat;
    let lo = g[7] as nat;
    let w = (hi * 0x10000 + lo) as u32;
    assert(w as nat == hi * 0x10000 + lo);
    let v4 = ipv4_display(w);
    reveal_strlit("::ffff:");
    let s = ipv6_display(b);
    assert(s == "::ffff:"@ + v4);
    assert(s[0] == ':' && s[1] == ':');
    assert(double_colon_at(s, 0));
    assert(double_colon_from(s, 0) == 0);
    let tail = s.subrange(2, s.len() as int);
    let ffff = seq!['f', 'f', 'f', 'f'];
    assert(tail =~= ffff + seq![':'] + v4);
    lemma_ipv4_text_chars(w);
    assert forall|k: int| 0 <= k < v4.len() implies v4[k] != ':' by {
        assert(is_digit(v4[k]) || v4[k] == '.');
    }
    lemma_split_append(ffff, ':', v4);
    lemma_split_without(ffff, ':');
    assert(split(tail, ':') =~= seq![ffff, v4]);
    assert(hex_value(ffff) == 0xffff) by {
        reveal_with_fuel(hex_value, 5);
        assert(hex_digit('f') == 15);
    }
    assert(hex_group(ffff) == Some(0xffffu16));
    ipv4_text_reads_back(w);
    let ps = seq![ffff, v4];
    assert(ps[0] == ffff && ps[1] == v4);
    assert(groups_from(ps, 1, true) == Some(seq![(w / 0x10000) as u16, (w % 0x10000) as u16]));
    assert(seq![0xffffu16] + seq![(w / 0x10000) as u16, (w % 0x10000) as u16] =~= seq![
        0xffffu16,
        (w / 0x10000) as u16,
        (w % 0x10000) as u16,
    ]);
    assert(groups_from(ps, 0, true) == Some(seq![0xffffu16, (w / 0x10000) as u16, (w % 0x10000) as u16]));
    assert(groups_of(tail, true) == Some(seq![0xffffu16, (w / 0x10000) as u16, (w % 0x10000) as u16]));
    assert(w / 0x10000 == hi && w % 0x10000 == lo);
    assert(zero_groups(5) + seq![0xffffu16, hi as u16, lo as u16] =~= g);
    lemma_not_ipv4(s);
}

proof fn lemma_plain_reads_back(b: u128)
    requires
        !(address_groups(b)[0] == 0 && address_groups(b)[1] == 0 && address_groups(b)[2] == 0
            && address_groups(b)[3] == 0 && address_groups(b)[4] == 0 && address_groups(b)[5]
            == 0xffff),
        longest_zeros_from(address_groups(b), 0).1 <= 1,
    ensures
        ipv6_groups(ipv6_display(b)) == Some(address_groups(b)),
        ipv4_parse(ipv6_display(b)) is None,
{
    lemma_address_groups_value(b);
    let g = address_groups(b);
    let s = ipv6_display(b);
    assert(s == join_hex(g));
    lemma_join_hex_shape(g);
    assert forall|m: int| 0 <= m && m + 1 < s.len() && m < s.len() implies !#[trigger] double_colon_at(s, m) by {
        assert(!(s[m] == ':' && s[m + 1] == ':'));
    }
    lemma_double_colon(s, 0, s.len() as int);
    lemma_join_hex_reads_back(g, true);
    lemma_no_dot_not_ipv4(s);
}

/// Groups before and after `::`, seven at most, read back with zeros in between.
proof fn lemma_compressed_text(hs: Seq<u16>, ts: Seq<u16>)
    requires
        hs.len() + ts.len() <= 7,
    ensures
        ipv6_groups(join_hex(hs) + "::"@ + join_hex(ts)) == Some(
            hs + zero_groups((8 - hs.len() - ts.len()) as nat) + ts,
        ),
        forall|k: int|
            0 <= k < (join_hex(hs) + "::"@ + join_hex(ts)).len() ==> (join_hex(hs) + "::"@
                + join_hex(ts))[k] != '.',
{
    let h = join_hex(hs);
    let t = join_hex(ts);
    reveal_strlit("::");
    let s = h + "::"@ + t;
    assert(s =~= h + seq![':', ':'] + t);
    let p = h.len() as int;
    assert(s[p] == ':' && s[p + 1] == ':');
    if hs.len() > 0 {
        lemma_join_hex_shape(hs);
        lemma_join_hex_reads_back(hs, false);
        assert forall|m: int| 0 <= m && m + 1 < s.len() && m < p implies !#[trigger] double_colon_at(s, m) by {
            assert(s[m] == h[m]);
            if m + 1 < p {
                assert(s[m + 1] == h[m + 1]);
            } else {
                assert(h[m] == h.last());
            }
        }
        assert(s.subrange(0, p) =~= h);
    } else {
        assert(h =~= Seq::<char>::empty());
        assert(hs =~= Seq::<u16>::empty());
    }
    lemma_double_colon(s, 0, p);
    assert(double_colon_from(s, 0) == p);
    if ts.len() > 0 {
        lemma_join_hex_shape(ts);
        lemma_join_hex_reads_back(ts, true);
        assert(s.subrange(p + 2, s.len() as int) =~= t);
    } else {
        assert(t =~= Seq::<char>::empty());
        assert(ts =~= Seq::<u16>::empty());
    }
    assert forall|k: int| 0 <= k < s.len() implies s[k] != '.' by {
        if k < p {
            assert(s[k] == h[k]);
            lemma_join_hex_shape(hs);
        } else if k >= p + 2 {
            assert(s[k] == t[k - p - 2]);
            lemma_join_hex_shape(ts);
        }
    }
}

proof fn lemma_compressed_reads_back(b: u128)
    requires
        !(address_groups(b)[0] == 0 && address_groups(b)[1] == 0 && address_groups(b)[2] == 0
            && address_groups(b)[3] == 0 && address_groups(b)[4] == 0 && address_groups(b)[5]
            == 0xffff),
        longest_zeros_from(address_groups(b), 0).1 > 1,
    ensures
        ipv6_groups(ipv6_display(b)) == Some(address_groups(b)),
        ipv4_parse(ipv6_display(b)) is None,
{
    lemma_address_groups_value(b);
    let g = address_groups(b);
    let (st, ln) = longest_zeros_from(g, 0);
    lemma_longest_zeros(g, 0);
    lemma_zeros_at_run(g, st);
    let hs = g.subrange(0, st);
    let ts = g.subrange(st + ln, 8);
    lemma_compressed_text(hs, ts);
    assert(ipv6_display(b) == join_hex(hs) + "::"@ + join_hex(ts));
    assert(zero_groups(ln) =~= g.subrange(st, st + ln));
    assert(hs + zero_groups(ln) + ts =~= g);
    lemma_no_dot_not_ipv4(ipv6_display(b));
}

/// The text of an IPv6 address reads back as that address, and never as an IPv4 one.
pub proof fn ipv6_text_reads_back(b: u128)
    ensures
        ipv4_parse(ipv6_display(b)) is None,
        ipv6_parse(ipv6_display(b)) == Some(b),
        address_of(address_text(IpAddress::V6(b))) == Some(IpAddress::V6(b)),
{
    lemma_address_groups_value(b);
    let g = address_groups(b);
    if g[0] == 0 && g[1] == 0 && g[2] == 0 && g[3] == 0 && g[4] == 0 && g[5] == 0xffff {
        lemma_mapped_reads_back(b);
    } else if longest_zeros_from(g, 0).1 > 1 {
        lemma_compressed_reads_back(b);
    } else {
        lemma_plain_reads_back(b);
    }
}

/// Every address, written as text, reads back as itself: the texts that CIDR blocks and
/// ranges expand to name exactly their addresses.
pub proof fn address_text_reads_back(a: IpAddress)
    ensures
        address_of(address_text(a)) == Some(a),
{
    match a {
        IpAddress::V4(v) => ipv4_text_reads_back(v),
        IpAddress::V6(b) => ipv6_text_reads_back(b),
    }
}

} // verus!
