//! Target expressions: host names, IP addresses, CIDR blocks, address ranges and
//! comma-separated lists of them.
use vstd::prelude::*;
use crate::ip::{
    ip_addr_parse, ip_display, ipv4_text_reads_back, ipv6_text_reads_back, parse_ip_addr, push_ip,
};
use crate::text::slice_of;
use crate::text::{
    chars_of, contains, contains_chars, decimal, is_white_space, lemma_skip_ws_bounds,
    lemma_skip_ws_prefix, lemma_split_concat, lemma_split_without, lemma_trim_end_bounds,
    lemma_trim_end_keeps, lines, lines_chars, push_all, push_decimal, skip_ws, split,
    split_chars, split_once, split_once_chars, string_from, trim, trim_chars, views, lower,
    lower_all, next_sep, split_from,
};
use crate::{PscanError, rejects_with};

verus! {

/// Limits on target expansion.
#[derive(Debug, Clone)]
pub struct TargetOptions {
    /// The largest number of distinct targets an expansion may produce.
    pub max_hosts: usize,
}

// ---------------------------------------------------------------- addresses

/// `IpNet::from_str` of the `ipnet` crate: `Some((is_v6, address bits, prefix length))`
/// for a CIDR block such as `192.0.2.0/24` or `2001:db8::/32`.
pub uninterp spec fn ipnet_parse(text: Seq<char>) -> Option<(bool, u128, u8)>;

/// Parses a CIDR block with `ipnet::IpNet::from_str`; the address is returned as written,
/// not masked.
#[verifier::external_body]
fn parse_ipnet(text: &[char]) -> (r: Option<(bool, u128, u8)>)
    ensures
        r == ipnet_parse(text@),
        r matches Some((v6, bits, prefix)) ==> if v6 {
            prefix <= 128
        } else {
            bits <= u32::MAX && prefix <= 32
        },
{
    let text: String = text.iter().collect();
    match text.parse::<ipnet::IpNet>() {
        Ok(ipnet::IpNet::V4(n)) => Some((false, u32::from(n.addr()) as u128, n.prefix_len())),
        Ok(ipnet::IpNet::V6(n)) => Some((true, u128::from(n.addr()), n.prefix_len())),
        Err(_) => None,
    }
}

// ---------------------------------------------------------------- CIDR hosts

/// The IPv4 network mask of a prefix length (`ipnet`'s `netmask`).
pub open spec fn v4_netmask(prefix: u8) -> u32 {
    if prefix == 0 {
        0
    } else {
        0xffff_ffffu32 << ((32 - prefix) as u32)
    }
}

/// The IPv4 host mask of a prefix length (`ipnet`'s `hostmask`).
pub open spec fn v4_hostmask(prefix: u8) -> u32 {
    if prefix >= 32 {
        0
    } else {
        0xffff_ffffu32 >> (prefix as u32)
    }
}

/// The IPv6 network mask of a prefix length.
pub open spec fn v6_netmask(prefix: u8) -> u128 {
    if prefix == 0 {
        0
    } else {
        0xffff_ffff_ffff_ffff_ffff_ffff_ffff_ffffu128 << ((128 - prefix) as u32)
    }
}

/// The IPv6 host mask of a prefix length.
pub open spec fn v6_hostmask(prefix: u8) -> u128 {
    if prefix >= 128 {
        0
    } else {
        0xffff_ffff_ffff_ffff_ffff_ffff_ffff_ffffu128 >> (prefix as u32)
    }
}

/// The first and last host of a block, as `ipnet`'s `hosts()` yields them: from the
/// network to the broadcast address, both excluded for IPv4 prefixes shorter than 31.
/// The range is empty when the first exceeds the last.
pub open spec fn cidr_hosts(v6: bool, bits: u128, prefix: u8) -> (u128, u128) {
    if v6 {
        (bits & v6_netmask(prefix), bits | v6_hostmask(prefix))
    } else {
        let a = bits as u32;
        let network = a & v4_netmask(prefix);
        let broadcast = a | v4_hostmask(prefix);
        if prefix < 31 {
            (
                if network == u32::MAX {
                    network as u128
                } else {
                    (network + 1) as u128
                },
                if broadcast == 0 {
                    broadcast as u128
                } else {
                    (broadcast - 1) as u128
                },
            )
        } else {
            (network as u128, broadcast as u128)
        }
    }
}

fn hosts_of(v6: bool, bits: u128, prefix: u8) -> (r: (u128, u128))
    requires
        v6 ==> prefix <= 128,
        !v6 ==> bits <= u32::MAX && prefix <= 32,
    ensures
        r == cidr_hosts(v6, bits, prefix),
        !v6 ==> r.1 <= u32::MAX,
{
    if v6 {
        let netmask: u128 = if prefix == 0 {
            0
        } else {
            0xffff_ffff_ffff_ffff_ffff_ffff_ffff_ffffu128 << ((128 - prefix) as u32)
        };
        let hostmask: u128 = if prefix >= 128 {
            0
        } else {
            0xffff_ffff_ffff_ffff_ffff_ffff_ffff_ffffu128 >> (prefix as u32)
        };
        (bits & netmask, bits | hostmask)
    } else {
        let a = bits as u32;
        let netmask: u32 = if prefix == 0 {
            0
        } else {
            0xffff_ffffu32 << ((32 - prefix) as u32)
        };
        let hostmask: u32 = if prefix >= 32 {
            0
        } else {
            0xffff_ffffu32 >> (prefix as u32)
        };
        let network = a & netmask;
        let broadcast = a | hostmask;
        if prefix < 31 {
            let first = if network == u32::MAX {
                network
            } else {
                network + 1
            };
            let last = if broadcast == 0 {
                broadcast
            } else {
                broadcast - 1
            };
            (first as u128, last as u128)
        } else {
            (network as u128, broadcast as u128)
        }
    }
}

proof fn v4_masks_split_the_address(a: u32, p: u32, s: u32)
    by (bit_vector)
    requires
        1 <= p <= 31,
        s + p == 32,
    ensures
        a & (0xffff_ffffu32 << s) == a - (a & (0xffff_ffffu32 >> p)),
        a | (0xffff_ffffu32 >> p) == (a & (0xffff_ffffu32 << s)) + (0xffff_ffffu32 >> p),
        (0xffff_ffffu32 >> p) + 1 == (1u32 << s),
{
}

/// The hosts of an IPv4 block. The block of `bits` with prefix length `prefix` holds the
/// `2^(32 - prefix)` addresses from its network address (`bits` rounded down to a
/// multiple of that size) to its broadcast address (the network address plus the size,
/// less one). Shorter than /31 the hosts are every address strictly between the two; a
/// /31 or /32 block is all hosts.
pub proof fn ipv4_block_hosts_lie_between_network_and_broadcast(bits: u128, prefix: u8)
    requires
        bits <= u32::MAX,
        prefix <= 32,
    ensures
        ({
            let size = vstd::arithmetic::power2::pow2((32 - prefix) as nat) as int;
            let network = bits as int - (bits as int) % size;
            let broadcast = network + size - 1;
            let (first, last) = cidr_hosts(false, bits, prefix);
            &&& network <= bits as int <= broadcast <= u32::MAX
            &&& prefix < 31 ==> first == network + 1 && last == broadcast - 1
            &&& prefix >= 31 ==> first == network && last == broadcast
        }),
{
    let a = bits as u32;
    assert((bits as u32) as u128 == bits) by (bit_vector)
        requires
            bits <= 0xffff_ffffu128,
    ;
    let s = (32 - prefix) as u32;
    vstd::arithmetic::power2::lemma2_to64();
    if prefix == 0 {
        assert(a & 0 == 0) by (bit_vector);
        assert(a | (0xffff_ffffu32 >> 0u32) == 0xffff_ffffu32) by (bit_vector);
        assert((bits as int) % 0x1_0000_0000int == bits as int);
    } else if prefix == 32 {
        assert(a & (0xffff_ffffu32 << 0u32) == a) by (bit_vector);
        assert(a | 0 == a) by (bit_vector);
    } else {
        let p = prefix as u32;
        v4_masks_split_the_address(a, p, s);
        vstd::bits::lemma_u32_pow2_no_overflow(s as nat);
        vstd::bits::lemma_u32_shl_is_mul(1, s);
        assert(vstd::arithmetic::power2::pow2(s as nat) == (1u32 << s));
        assert(vstd::bits::low_bits_mask(s as nat) as u32 == (0xffff_ffffu32 >> p));
        vstd::bits::lemma_u32_low_bits_mask_is_mod(a, s as nat);
        assert((bits as int) % (vstd::arithmetic::power2::pow2(s as nat) as int) == (a % (1u32 << s))
            as int);
        if prefix == 31 {
            assert((1u32 << 1u32) == 2) by (bit_vector);
        } else {
            assert((1u32 << s) >= 4) by (bit_vector)
                requires
                    2 <= s <= 31,
            ;
        }
    }
}

proof fn v6_block_below(b: u128, x: u128, s: u128)
    by (bit_vector)
    requires
        1 <= s <= 127,
        (x >> s) < (b >> s),
    ensures
        x < (b & (0xffff_ffff_ffff_ffff_ffff_ffff_ffff_ffffu128 << s)),
{
}

proof fn v6_block_above(b: u128, x: u128, p: u128, s: u128)
    by (bit_vector)
    requires
        1 <= p <= 127,
        s + p == 128,
        (x >> s) > (b >> s),
    ensures
        x > (b | (0xffff_ffff_ffff_ffff_ffff_ffff_ffff_ffffu128 >> p)),
{
}

proof fn v6_block_inside(b: u128, x: u128, p: u128, s: u128)
    by (bit_vector)
    requires
        1 <= p <= 127,
        s + p == 128,
        (x >> s) == (b >> s),
    ensures
        (b & (0xffff_ffff_ffff_ffff_ffff_ffff_ffff_ffffu128 << s)) <= x,
        x <= (b | (0xffff_ffff_ffff_ffff_ffff_ffff_ffff_ffffu128 >> p)),
{
}

proof fn v6_block_membership(b: u128, x: u128, p: u128, s: u128)
    requires
        1 <= p <= 127,
        s + p == 128,
    ensures
        ((b & (0xffff_ffff_ffff_ffff_ffff_ffff_ffff_ffffu128 << s)) <= x && x <= (b | (
        0xffff_ffff_ffff_ffff_ffff_ffff_ffff_ffffu128 >> p))) <==> (x >> s) == (b >> s),
{
    if (x >> s) < (b >> s) {
        v6_block_below(b, x, s);
    } else if (x >> s) > (b >> s) {
        v6_block_above(b, x, p, s);
    } else {
        v6_block_inside(b, x, p, s);
    }
}

/// The hosts of an IPv6 block are all of its addresses, the first and last included:
/// exactly the addresses whose leading `prefix` bits are those of `bits` (every address
/// for a /0 block).
pub proof fn ipv6_block_hosts_are_the_whole_block(bits: u128, prefix: u8, x: u128)
    requires
        prefix <= 128,
    ensures
        ({
            let (first, last) = cidr_hosts(true, bits, prefix);
            (first <= x <= last) <==> (prefix == 0 || x >> ((128 - prefix) as u128) == bits >> ((
            128 - prefix) as u128))
        }),
{
    if prefix == 0 {
        assert(bits & 0 == 0) by (bit_vector);
        assert(bits | (0xffff_ffff_ffff_ffff_ffff_ffff_ffff_ffffu128 >> 0u32)
            == 0xffff_ffff_ffff_ffff_ffff_ffff_ffff_ffffu128) by (bit_vector);
    } else if prefix == 128 {
        assert(bits & (0xffff_ffff_ffff_ffff_ffff_ffff_ffff_ffffu128 << 0u32) == bits)
            by (bit_vector);
        assert(bits | 0 == bits) by (bit_vector);
        assert(x >> 0u128 == x) by (bit_vector);
        assert(bits >> 0u128 == bits) by (bit_vector);
    } else {
        let p = prefix as u128;
        let s = (128 - prefix) as u128;
        v6_block_membership(bits, x, p, s);
        assert((0xffff_ffff_ffff_ffff_ffff_ffff_ffff_ffffu128 << ((128 - prefix) as u32))
            == (0xffff_ffff_ffff_ffff_ffff_ffff_ffff_ffffu128 << s)) by (bit_vector)
            requires
                s == (128 - prefix) as u128,
                1 <= prefix <= 127,
        ;
        assert((0xffff_ffff_ffff_ffff_ffff_ffff_ffff_ffffu128 >> (prefix as u32))
            == (0xffff_ffff_ffff_ffff_ffff_ffff_ffff_ffffu128 >> p)) by (bit_vector)
            requires
                p == prefix as u128,
        ;
    }
}

// ---------------------------------------------------------------- the target list

/// The texts of a list of strings.
pub open spec fn texts(v: Seq<String>) -> Seq<Seq<char>> {
    v.map_values(|s: String| s@)
}

/// The message when an expansion would exceed `limit` targets.
pub open spec fn limit_message(limit: nat) -> Seq<char> {
    "target limit exceeded ("@ + decimal(limit) + "); raise --max-hosts deliberately"@
}

/// Adds `t` to the list unless it is already there; a new target beyond `limit` is an
/// error.
pub open spec fn add_target(ts: Seq<Seq<char>>, t: Seq<char>, limit: nat) -> std::result::Result<
    Seq<Seq<char>>,
    Seq<char>,
> {
    if ts.contains(t) {
        Ok(ts)
    } else if ts.len() >= limit {
        Err(limit_message(limit))
    } else {
        Ok(ts.push(t))
    }
}

/// Adds the addresses `cur..=last` in order.
pub open spec fn add_range(
    ts: Seq<Seq<char>>,
    v6: bool,
    cur: int,
    last: int,
    limit: nat,
) -> std::result::Result<Seq<Seq<char>>, Seq<char>>
    decreases last - cur + 1,
{
    if cur > last {
        Ok(ts)
    } else {
        match add_target(ts, ip_display(v6, cur as u128), limit) {
            Ok(next) => add_range(next, v6, cur + 1, last, limit),
            Err(m) => Err(m),
        }
    }
}

fn limit_error(limit: usize) -> (e: PscanError)
    ensures
        rejects_with(e, limit_message(limit as nat)),
{
    let mut m = chars_of("target limit exceeded (");
    push_decimal(&mut m, limit as u64);
    push_all(&mut m, &chars_of("); raise --max-hosts deliberately"));
    PscanError::InvalidInput(string_from(&m))
}

fn push_target(target: Vec<char>, targets: &mut Vec<String>, limit: usize) -> (r: crate::Result<()>)
    ensures
        match add_target(texts(old(targets)@), target@, limit as nat) {
            Ok(ts) => r is Ok && texts(final(targets)@) == ts,
            Err(m) => r matches Err(e) && rejects_with(e, m),
        },
{
    let s = string_from(&target);
    let n = targets.len();
    let mut i: usize = 0;
    while i < n
        invariant
            n == targets@.len(),
            0 <= i <= n,
            s@ == target@,
            forall|m: int| 0 <= m < i ==> targets@[m]@ != target@,
        decreases n - i,
    {
        if targets[i] == s {
            assert(texts(targets@)[i as int] == target@);
            return Ok(());
        }
        i = i + 1;
    }
    assert(!texts(targets@).contains(target@)) by {
        if texts(targets@).contains(target@) {
            let w = choose|w: int| 0 <= w < texts(targets@).len() && texts(targets@)[w] == target@;
            assert(targets@[w]@ == target@);
        }
    }
    if n >= limit {
        return Err(limit_error(limit));
    }
    targets.push(s);
    assert(texts(targets@) =~= texts(old(targets)@).push(target@));
    Ok(())
}

fn push_range(v6: bool, first: u128, last: u128, targets: &mut Vec<String>, limit: usize) -> (r:
    crate::Result<()>)
    requires
        !v6 ==> last <= u32::MAX,
    ensures
        match add_range(texts(old(targets)@), v6, first as int, last as int, limit as nat) {
            Ok(ts) => r is Ok && texts(final(targets)@) == ts,
            Err(m) => r matches Err(e) && rejects_with(e, m),
        },
{
    if first > last {
        return Ok(());
    }
    let mut cur = first;
    loop
        invariant
            first <= cur <= last,
            !v6 ==> last <= u32::MAX,
            add_range(texts(targets@), v6, cur as int, last as int, limit as nat) == add_range(
                texts(old(targets)@),
                v6,
                first as int,
                last as int,
                limit as nat,
            ),
        decreases last - cur,
    {
        let mut text: Vec<char> = Vec::new();
        push_ip(&mut text, v6, cur);
        let ghost before = texts(targets@);
        match push_target(text, targets, limit) {
            Ok(()) => {},
            Err(e) => return Err(e),
        }
        proof {
            assert(add_range(before, v6, cur as int, last as int, limit as nat) == add_range(
                texts(targets@),
                v6,
                cur + 1,
                last as int,
                limit as nat,
            ));
        }
        if cur == last {
            assert(add_range(texts(targets@), v6, cur + 1, last as int, limit as nat) == Ok::<
                Seq<Seq<char>>,
                Seq<char>,
            >(texts(targets@)));
            return Ok(());
        }
        cur = cur + 1;
    }
}

// ---------------------------------------------------------------- tokens

/// An ASCII letter or digit.
pub open spec fn is_alnum(c: char) -> bool {
    ('0' <= c <= '9') || ('a' <= c <= 'z') || ('A' <= c <= 'Z')
}

/// A DNS label: 1 to 63 letters, digits and hyphens, neither starting nor ending with a
/// hyphen.
pub open spec fn valid_label(l: Seq<char>) -> bool {
    &&& 1 <= l.len() <= 63
    &&& l[0] != '-'
    &&& l.last() != '-'
    &&& forall|i: int| 0 <= i < l.len() ==> is_alnum(#[trigger] l[i]) || l[i] == '-'
}

/// A host name of at most 253 characters whose dot-separated labels are all valid. (A
/// valid name is ASCII, so its length in characters is its length in bytes.)
pub open spec fn valid_host_name(t: Seq<char>) -> bool {
    t.len() <= 253 && forall|i: int|
        0 <= i < split(t, '.').len() ==> valid_label(#[trigger] split(t, '.')[i])
}

/// A DNS label is exactly 1 to 63 characters, each an ASCII digit, an ASCII letter of
/// either case (one that lowercases into `a`..`z`) or a hyphen, with no hyphen at either
/// end.
pub proof fn labels_are_letters_digits_and_inner_hyphens(l: Seq<char>)
    ensures
        valid_label(l) <==> {
            &&& 1 <= l.len() <= 63
            &&& l[0] != '-'
            &&& l[l.len() - 1] != '-'
            &&& forall|i: int|
                0 <= i < l.len() ==> ('0' <= #[trigger] l[i] <= '9' || 'a' <= lower(l[i]) <= 'z'
                    || l[i] == '-')
        },
{
    assert forall|i: int| 0 <= i < l.len() implies (is_alnum(#[trigger] l[i]) || l[i] == '-')
        <==> ('0' <= l[i] <= '9' || 'a' <= lower(l[i]) <= 'z' || l[i] == '-') by {
        lemma_lower_letter(l[i]);
    }
}

proof fn lemma_lower_letter(c: char)
    ensures
        ('a' <= lower(c) <= 'z') <==> ('a' <= c <= 'z' || 'A' <= c <= 'Z'),
        (lower(c) == '.') <==> (c == '.'),
        (lower(c) == '-') <==> (c == '-'),
        ('0' <= lower(c) <= '9') <==> ('0' <= c <= '9'),
{
}

/// Whether a label is valid does not depend on the case of its letters.
pub proof fn label_validity_ignores_case(l: Seq<char>)
    ensures
        valid_label(l) == valid_label(lower_all(l)),
{
    let m = lower_all(l);
    assert forall|i: int| 0 <= i < l.len() implies (is_alnum(#[trigger] l[i]) || l[i] == '-')
        <==> (is_alnum(m[i]) || m[i] == '-') by {
        lemma_lower_letter(l[i]);
    }
    if l.len() > 0 {
        lemma_lower_letter(l[0]);
        lemma_lower_letter(l[l.len() - 1]);
    }
    if valid_label(m) {
        assert forall|i: int| 0 <= i < l.len() implies (is_alnum(#[trigger] l[i]) || l[i] == '-') by {
            assert(is_alnum(m[i]) || m[i] == '-');
        }
    }
}

proof fn lemma_next_sep_lower(s: Seq<char>, i: int)
    requires
        0 <= i <= s.len(),
    ensures
        next_sep(lower_all(s), '.', i) == next_sep(s, '.', i),
    decreases s.len() - i,
{
    if i < s.len() {
        lemma_lower_letter(s[i]);
        lemma_next_sep_lower(s, i + 1);
    }
}

proof fn lemma_split_lower(s: Seq<char>, i: int)
    requires
        0 <= i <= s.len(),
    ensures
        split_from(lower_all(s), '.', i) == split_from(s, '.', i).map_values(
            |l: Seq<char>| lower_all(l),
        ),
    decreases s.len() - i,
{
    let ls = lower_all(s);
    lemma_next_sep_lower(s, i);
    crate::text::lemma_next_sep_bounds(s, '.', i);
    let j = next_sep(s, '.', i);
    if j < s.len() {
        lemma_split_lower(s, j + 1);
        assert(ls.subrange(i, j) =~= lower_all(s.subrange(i, j)));
        assert(split_from(lower_all(s), '.', i) =~= split_from(s, '.', i).map_values(
            |l: Seq<char>| lower_all(l),
        ));
    } else {
        assert(ls.subrange(i, ls.len() as int) =~= lower_all(s.subrange(i, s.len() as int)));
        assert(split_from(lower_all(s), '.', i) =~= split_from(s, '.', i).map_values(
            |l: Seq<char>| lower_all(l),
        ));
    }
}

/// Whether a host name is valid does not depend on the case of its letters:
/// `MyServer.example.com` is as valid as `myserver.example.com`.
pub proof fn host_name_validity_ignores_case(t: Seq<char>)
    ensures
        valid_host_name(t) == valid_host_name(lower_all(t)),
{
    lemma_split_lower(t, 0);
    let ps = split(t, '.');
    let qs = split(lower_all(t), '.');
    assert forall|i: int| 0 <= i < ps.len() implies valid_label(#[trigger] ps[i]) == valid_label(
        qs[i],
    ) by {
        label_validity_ignores_case(ps[i]);
    }
    if valid_host_name(lower_all(t)) {
        assert forall|i: int| 0 <= i < ps.len() implies valid_label(#[trigger] ps[i]) by {
            assert(valid_label(qs[i]));
        }
    }
    if valid_host_name(t) {
        assert forall|i: int| 0 <= i < qs.len() implies valid_label(#[trigger] qs[i]) by {
            assert(valid_label(ps[i]));
        }
    }
}

/// A target that is neither a block nor a range: an IP address or a host name.
pub open spec fn valid_target(t: Seq<char>) -> bool {
    ip_addr_parse(t) is Some || valid_host_name(t)
}

/// An address range `a-b`: `Ok(None)` when the token has no `-` or neither side is an
/// address, an error when exactly one side is, and otherwise both ends.
pub open spec fn ip_range(token: Seq<char>) -> std::result::Result<
    Option<(bool, u128, bool, u128)>,
    Seq<char>,
> {
    match split_once(token, '-') {
        None => Ok(None),
        Some((a, b)) => match (ip_addr_parse(a), ip_addr_parse(b)) {
            (Some((fa, va)), Some((fb, vb))) => Ok(Some((fa, va, fb, vb))),
            (None, None) => Ok(None),
            _ => Err("invalid IP range: "@ + token),
        },
    }
}

/// Adds what one token names to the targets `ts`: every host of a CIDR block, every
/// address of a range, or the token itself when it is an address or a host name.
pub open spec fn expand_token(ts: Seq<Seq<char>>, token: Seq<char>, limit: nat) -> std::result::Result<
    Seq<Seq<char>>,
    Seq<char>,
> {
    if contains(token, "/"@) {
        match ipnet_parse(token) {
            None => Err("invalid CIDR: "@ + token),
            Some((v6, bits, prefix)) => {
                let (first, last) = cidr_hosts(v6, bits, prefix);
                add_range(ts, v6, first as int, last as int, limit)
            },
        }
    } else {
        match ip_range(token) {
            Err(m) => Err(m),
            Ok(Some((fa, va, fb, vb))) => if fa != fb {
                Err("IP range endpoints use different address families: "@ + token)
            } else if va > vb {
                Err("descending IP range: "@ + token)
            } else if fa && vb - va + 1 > limit {
                Err(limit_message(limit))
            } else {
                add_range(ts, fa, va as int, vb as int, limit)
            },
            Ok(None) => if valid_target(token) {
                add_target(ts, token, limit)
            } else {
                Err("invalid target: "@ + token)
            },
        }
    }
}

/// A piece that names nothing: blank, or a `#` comment.
pub open spec fn skipped(t: Seq<char>) -> bool {
    t.len() == 0 || t[0] == '#'
}

/// Adds the comma-separated pieces `ps[i..]` in order.
pub open spec fn expand_pieces(ps: Seq<Seq<char>>, i: int, ts: Seq<Seq<char>>, limit: nat) -> std::result::Result<
    Seq<Seq<char>>,
    Seq<char>,
>
    decreases ps.len() - i,
{
    if i < 0 || i >= ps.len() {
        Ok(ts)
    } else {
        let t = trim(ps[i]);
        if skipped(t) {
            expand_pieces(ps, i + 1, ts, limit)
        } else {
            match expand_token(ts, t, limit) {
                Ok(next) => expand_pieces(ps, i + 1, next, limit),
                Err(m) => Err(m),
            }
        }
    }
}

/// A line that is a comment: its trimmed text starts with `#`.
pub open spec fn comment_line(line: Seq<char>) -> bool {
    let t = trim(line);
    t.len() > 0 && t[0] == '#'
}

/// Adds what one expression names: nothing for a comment line, otherwise its
/// comma-separated pieces in order.
pub open spec fn expand_line(line: Seq<char>, ts: Seq<Seq<char>>, limit: nat) -> std::result::Result<
    Seq<Seq<char>>,
    Seq<char>,
> {
    if comment_line(line) {
        Ok(ts)
    } else {
        expand_pieces(split(line, ','), 0, ts, limit)
    }
}

/// Adds the expressions `ls[k..]` in order.
pub open spec fn expand_lines(ls: Seq<Seq<char>>, k: int, ts: Seq<Seq<char>>, limit: nat) -> std::result::Result<
    Seq<Seq<char>>,
    Seq<char>,
>
    decreases ls.len() - k,
{
    if k < 0 || k >= ls.len() {
        Ok(ts)
    } else {
        match expand_line(ls[k], ts, limit) {
            Ok(next) => expand_lines(ls, k + 1, next, limit),
            Err(m) => Err(m),
        }
    }
}

/// The distinct targets the expressions name, in the order first named, or why they are
/// rejected.
pub open spec fn target_list(exprs: Seq<Seq<char>>, limit: nat) -> std::result::Result<
    Seq<Seq<char>>,
    Seq<char>,
> {
    if limit == 0 {
        Err("max_hosts must be greater than zero"@)
    } else {
        match expand_lines(exprs, 0, Seq::empty(), limit) {
            Ok(ts) => if ts.len() == 0 {
                Err("no targets supplied"@)
            } else {
                Ok(ts)
            },
            Err(m) => Err(m),
        }
    }
}

fn rejection(prefix: &str, token: &[char]) -> (e: PscanError)
    ensures
        rejects_with(e, prefix@ + token@),
{
    let mut m = chars_of(prefix);
    push_all(&mut m, token);
    PscanError::InvalidInput(string_from(&m))
}

fn alnum(c: char) -> (r: bool)
    ensures
        r == is_alnum(c),
{
    ('0' <= c && c <= '9') || ('a' <= c && c <= 'z') || ('A' <= c && c <= 'Z')
}

fn label_ok(l: &[char]) -> (r: bool)
    ensures
        r == valid_label(l@),
{
    let n = l.len();
    if n < 1 || n > 63 || l[0] == '-' || l[n - 1] == '-' {
        return false;
    }
    let mut i: usize = 0;
    while i < n
        invariant
            n == l@.len(),
            0 <= i <= n,
            forall|m: int| 0 <= m < i ==> is_alnum(#[trigger] l@[m]) || l@[m] == '-',
        decreases n - i,
    {
        if !(alnum(l[i]) || l[i] == '-') {
            return false;
        }
        i = i + 1;
    }
    true
}

fn target_ok(t: &[char]) -> (r: bool)
    ensures
        r == valid_target(t@),
{
    if parse_ip_addr(t).is_some() {
        return true;
    }
    if t.len() > 253 {
        return false;
    }
    let labels = split_chars(t, '.');
    let ghost ls = views(labels@);
    let mut i: usize = 0;
    while i < labels.len()
        invariant
            0 <= i <= labels@.len(),
            ls == views(labels@),
            ls == split(t@, '.'),
            ip_addr_parse(t@) is None,
            t@.len() <= 253,
            forall|m: int| 0 <= m < i ==> valid_label(#[trigger] ls[m]),
        decreases labels@.len() - i,
    {
        assert(ls[i as int] == labels@[i as int]@);
        if !label_ok(&labels[i]) {
            assert(!valid_label(split(t@, '.')[i as int]));
            return false;
        }
        i = i + 1;
    }
    true
}

fn read_ip_range(token: &[char]) -> (r: crate::Result<Option<(bool, u128, bool, u128)>>)
    ensures
        match (r, ip_range(token@)) {
            (Ok(a), Ok(b)) => a == b,
            (Err(e), Err(m)) => rejects_with(e, m),
            _ => false,
        },
        r matches Ok(Some((fa, va, fb, vb))) ==> (!fa ==> va <= u32::MAX) && (!fb ==> vb
            <= u32::MAX),
{
    match split_once_chars(token, '-') {
        None => Ok(None),
        Some((a, b)) => match (parse_ip_addr(&a), parse_ip_addr(&b)) {
            (Some((fa, va)), Some((fb, vb))) => Ok(Some((fa, va, fb, vb))),
            (None, None) => Ok(None),
            _ => Err(rejection("invalid IP range: ", token)),
        },
    }
}

/// Adds the hosts of a parsed CIDR block to `targets`: the block is given as its address
/// family, its address bits as written and its prefix length, as a CIDR parse yields
/// them. The hosts come in increasing order, those already listed are skipped, and a new
/// one beyond `limit` targets is an error.
pub fn cidr_targets(v6: bool, bits: u128, prefix: u8, targets: &mut Vec<String>, limit: usize) -> (r:
    crate::Result<()>)
    requires
        v6 ==> prefix <= 128,
        !v6 ==> bits <= u32::MAX && prefix <= 32,
    ensures
        match add_range(
            texts(old(targets)@),
            v6,
            cidr_hosts(v6, bits, prefix).0 as int,
            cidr_hosts(v6, bits, prefix).1 as int,
            limit as nat,
        ) {
            Ok(ts) => r is Ok && texts(final(targets)@) == ts,
            Err(m) => r matches Err(e) && rejects_with(e, m),
        },
{
    let (first, last) = hosts_of(v6, bits, prefix);
    push_range(v6, first, last, targets, limit)
}

fn expand(token: &[char], targets: &mut Vec<String>, limit: usize) -> (r: crate::Result<()>)
    ensures
        match expand_token(texts(old(targets)@), token@, limit as nat) {
            Ok(ts) => r is Ok && texts(final(targets)@) == ts,
            Err(m) => r matches Err(e) && rejects_with(e, m),
        },
{
    if contains_chars(token, &chars_of("/")) {
        match parse_ipnet(token) {
            None => Err(rejection("invalid CIDR: ", token)),
            Some((v6, bits, prefix)) => cidr_targets(v6, bits, prefix, targets, limit),
        }
    } else {
        match read_ip_range(token) {
            Err(e) => Err(e),
            Ok(Some((fa, va, fb, vb))) => {
                if fa != fb {
                    Err(rejection("IP range endpoints use different address families: ", token))
                } else if va > vb {
                    Err(rejection("descending IP range: ", token))
                } else if fa && vb - va >= limit as u128 {
                    Err(limit_error(limit))
                } else {
                    push_range(fa, va, vb, targets, limit)
                }
            },
            Ok(None) => {
                if target_ok(token) {
                    let copy = slice_of(token, 0, token.len());
                    assert(copy@ =~= token@);
                    push_target(copy, targets, limit)
                } else {
                    Err(rejection("invalid target: ", token))
                }
            },
        }
    }
}

/// Expands target expressions into the distinct targets they name, in the order first
/// named. An expression whose trimmed text starts with `#` is a comment and names
/// nothing; any other is a comma-separated list whose pieces are trimmed, blank pieces
/// and pieces starting with `#` being skipped. A piece with a `/` is a CIDR block and gives its hosts;
/// `a-b` with two addresses of one family gives every address from `a` to `b`; any other
/// piece must be an IP address or a host name and is kept as written. Rejected: a zero
/// limit, a malformed block, range, address or name, a range that descends or mixes
/// families, more distinct targets than the limit, and no target at all.
pub fn parse_target_expressions(expressions: &[String], options: &TargetOptions) -> (r:
    crate::Result<Vec<String>>)
    ensures
        match (r, target_list(texts(expressions@), options.max_hosts as nat)) {
            (Ok(v), Ok(ts)) => texts(v@) == ts,
            (Err(e), Err(m)) => rejects_with(e, m),
            _ => false,
        },
{
    let limit = options.max_hosts;
    if limit == 0 {
        return Err(PscanError::InvalidInput(
            string_from(&chars_of("max_hosts must be greater than zero")),
        ));
    }
    let ghost ls = texts(expressions@);
    let mut targets: Vec<String> = Vec::new();
    assert(texts(targets@) =~= Seq::<Seq<char>>::empty());
    let mut k: usize = 0;
    while k < expressions.len()
        invariant
            0 <= k <= expressions@.len(),
            ls == texts(expressions@),
            limit == options.max_hosts,
            limit > 0,
            expand_lines(ls, k as int, texts(targets@), limit as nat) == expand_lines(
                ls,
                0,
                Seq::empty(),
                limit as nat,
            ),
        decreases expressions@.len() - k,
    {
        let line = chars_of(expressions[k].as_str());
        assert(ls[k as int] == line@);
        let trimmed = trim_chars(&line);
        if trimmed.len() > 0 && trimmed[0] == '#' {
            assert(comment_line(ls[k as int]));
        } else {
            let pieces = split_chars(&line, ',');
            let ghost ps = views(pieces@);
            let mut j: usize = 0;
            while j < pieces.len()
                invariant
                    0 <= j <= pieces@.len(),
                    0 <= k < expressions@.len(),
                    ps == views(pieces@),
                    ps == split(ls[k as int], ','),
                    ls == texts(expressions@),
                    limit == options.max_hosts,
                    limit > 0,
                    expand_lines(ls, 0, Seq::empty(), limit as nat) == match expand_pieces(
                        ps,
                        j as int,
                        texts(targets@),
                        limit as nat,
                    ) {
                        Ok(next) => expand_lines(ls, k + 1, next, limit as nat),
                        Err(m) => Err(m),
                    },
                decreases pieces@.len() - j,
            {
                assert(ps[j as int] == pieces@[j as int]@);
                let token = trim_chars(&pieces[j]);
                if !(token.len() == 0 || token[0] == '#') {
                    match expand(&token, &mut targets, limit) {
                        Ok(()) => {},
                        Err(e) => return Err(e),
                    }
                }
                j = j + 1;
            }
        }
        k = k + 1;
    }
    if targets.len() == 0 {
        return Err(PscanError::InvalidInput(string_from(&chars_of("no targets supplied"))));
    }
    Ok(targets)
}

/// The expressions given directly, followed by each line of a target file's contents.
pub open spec fn all_expressions(expressions: Seq<String>, contents: Option<&str>) -> Seq<
    Seq<char>,
> {
    match contents {
        Some(c) => texts(expressions) + lines(c@),
        None => texts(expressions),
    }
}

/// Expands the given expressions and then each line of a target file, whose contents the
/// caller has read.
pub fn load_targets(expressions: &[String], file_contents: Option<&str>, options: &TargetOptions) -> (r:
    crate::Result<Vec<String>>)
    ensures
        match (r, target_list(all_expressions(expressions@, file_contents), options.max_hosts as nat)) {
            (Ok(v), Ok(ts)) => texts(v@) == ts,
            (Err(e), Err(m)) => rejects_with(e, m),
            _ => false,
        },
{
    let mut all: Vec<String> = Vec::new();
    let mut i: usize = 0;
    while i < expressions.len()
        invariant
            0 <= i <= expressions@.len(),
            texts(all@) == texts(expressions@.subrange(0, i as int)),
        decreases expressions@.len() - i,
    {
        let e = expressions[i].clone();
        assert(e@ == expressions@[i as int]@);
        let ghost prev = all@;
        all.push(e);
        assert(all@ == prev.push(e));
        assert(texts(prev.push(e)) == texts(prev).push(e@));
        assert(expressions@.subrange(0, i + 1) == expressions@.subrange(0, i as int).push(
            expressions@[i as int],
        ));
        assert(texts(expressions@.subrange(0, i as int).push(expressions@[i as int])) == texts(
            expressions@.subrange(0, i as int),
        ).push(expressions@[i as int]@));
        i = i + 1;
    }
    assert(expressions@.subrange(0, expressions@.len() as int) =~= expressions@);
    match file_contents {
        Some(contents) => {
            let chars = chars_of(contents);
            let ls = lines_chars(&chars);
            let ghost base = texts(all@);
            let mut j: usize = 0;
            while j < ls.len()
                invariant
                    0 <= j <= ls@.len(),
                    views(ls@) == lines(contents@),
                    texts(all@) == base + views(ls@).subrange(0, j as int),
                decreases ls@.len() - j,
            {
                let line = string_from(&ls[j]);
                let ghost prev = all@;
                all.push(line);
                assert(all@ == prev.push(line));
                assert(texts(prev.push(line)) == texts(prev).push(line@));
                assert(views(ls@).subrange(0, j + 1) == views(ls@).subrange(0, j as int).push(
                    views(ls@)[j as int],
                ));
                assert(base + views(ls@).subrange(0, j as int).push(views(ls@)[j as int]) == (base
                    + views(ls@).subrange(0, j as int)).push(views(ls@)[j as int]));
                j = j + 1;
            }
            assert(views(ls@).subrange(0, ls@.len() as int) =~= views(ls@));
        },
        None => {},
    }
    parse_target_expressions(&all, options)
}


// ---------------------------------------------------------------- laws of the target list

/// `a` is an initial part of `b`.
pub open spec fn prefix_of(a: Seq<Seq<char>>, b: Seq<Seq<char>>) -> bool {
    a.len() <= b.len() && forall|i: int| 0 <= i < a.len() ==> a[i] == b[i]
}

/// No target twice, at most `limit` of them, and each an address or a host name.
pub open spec fn kept(ts: Seq<Seq<char>>, limit: nat) -> bool {
    &&& ts.no_duplicates()
    &&& ts.len() <= limit
    &&& forall|i: int| 0 <= i < ts.len() ==> valid_target(#[trigger] ts[i])
}

/// The outcome of a step that may only append to `ts`, keeping it `kept`.
pub open spec fn extends(ts: Seq<Seq<char>>, r: std::result::Result<Seq<Seq<char>>, Seq<char>>, limit: nat) -> bool {
    match r {
        Ok(n) => kept(n, limit) && prefix_of(ts, n),
        Err(_) => true,
    }
}

proof fn lemma_add_target_extends(ts: Seq<Seq<char>>, t: Seq<char>, limit: nat)
    requires
        kept(ts, limit),
        valid_target(t),
    ensures
        extends(ts, add_target(ts, t, limit), limit),
{
    if !ts.contains(t) && ts.len() < limit {
        let n = ts.push(t);
        assert forall|i: int| 0 <= i < n.len() implies valid_target(#[trigger] n[i]) by {
            if i < ts.len() {
                assert(n[i] == ts[i]);
            }
        }
        assert forall|i: int, j: int| 0 <= i < n.len() && 0 <= j < n.len() && i != j implies n[i]
            != n[j] by {
            if i < ts.len() && j < ts.len() {
                assert(n[i] == ts[i] && n[j] == ts[j]);
            } else if i == ts.len() {
                assert(n[j] == ts[j]);
                assert(ts.contains(n[j]));
            } else {
                assert(n[i] == ts[i]);
                assert(ts.contains(n[i]));
            }
        }
    }
}

proof fn lemma_ip_text_is_a_target(v6: bool, x: u128)
    ensures
        valid_target(ip_display(v6, x)),
{
    if v6 {
        ipv6_text_reads_back(x);
    } else {
        ipv4_text_reads_back(x as u32);
    }
}

proof fn lemma_add_range_extends(ts: Seq<Seq<char>>, v6: bool, cur: int, last: int, limit: nat)
    requires
        kept(ts, limit),
    ensures
        extends(ts, add_range(ts, v6, cur, last, limit), limit),
    decreases last - cur + 1,
{
    if cur <= last {
        lemma_ip_text_is_a_target(v6, cur as u128);
        lemma_add_target_extends(ts, ip_display(v6, cur as u128), limit);
        match add_target(ts, ip_display(v6, cur as u128), limit) {
            Ok(next) => {
                lemma_add_range_extends(next, v6, cur + 1, last, limit);
            },
            Err(_) => {},
        }
    }
}

proof fn lemma_expand_token_extends(ts: Seq<Seq<char>>, token: Seq<char>, limit: nat)
    requires
        kept(ts, limit),
    ensures
        extends(ts, expand_token(ts, token, limit), limit),
{
    if contains(token, "/"@) {
        match ipnet_parse(token) {
            None => {},
            Some((v6, bits, prefix)) => {
                let (first, last) = cidr_hosts(v6, bits, prefix);
                lemma_add_range_extends(ts, v6, first as int, last as int, limit);
            },
        }
    } else {
        match ip_range(token) {
            Ok(Some((fa, va, fb, vb))) => {
                lemma_add_range_extends(ts, fa, va as int, vb as int, limit);
            },
            _ => {
                if valid_target(token) {
                    lemma_add_target_extends(ts, token, limit);
                }
            },
        }
    }
}

proof fn lemma_expand_pieces_extends(ps: Seq<Seq<char>>, i: int, ts: Seq<Seq<char>>, limit: nat)
    requires
        kept(ts, limit),
    ensures
        extends(ts, expand_pieces(ps, i, ts, limit), limit),
    decreases ps.len() - i,
{
    if 0 <= i < ps.len() {
        let t = trim(ps[i]);
        if skipped(t) {
            lemma_expand_pieces_extends(ps, i + 1, ts, limit);
        } else {
            lemma_expand_token_extends(ts, t, limit);
            match expand_token(ts, t, limit) {
                Ok(next) => {
                    lemma_expand_pieces_extends(ps, i + 1, next, limit);
                },
                Err(_) => {},
            }
        }
    }
}

proof fn lemma_expand_lines_extends(ls: Seq<Seq<char>>, k: int, ts: Seq<Seq<char>>, limit: nat)
    requires
        kept(ts, limit),
    ensures
        extends(ts, expand_lines(ls, k, ts, limit), limit),
    decreases ls.len() - k,
{
    if 0 <= k < ls.len() {
        if !comment_line(ls[k]) {
            lemma_expand_pieces_extends(split(ls[k], ','), 0, ts, limit);
        }
        match expand_line(ls[k], ts, limit) {
            Ok(next) => {
                lemma_expand_lines_extends(ls, k + 1, next, limit);
            },
            Err(_) => {},
        }
    }
}

/// An accepted target list names each target once, holds at least one and at most
/// `limit` targets, and each of them is an IP address or a well-formed host name (the
/// addresses that blocks and ranges expand to included).
pub proof fn targets_are_distinct_valid_and_bounded(exprs: Seq<Seq<char>>, limit: nat)
    ensures
        match target_list(exprs, limit) {
            Ok(ts) => {
                &&& ts.no_duplicates()
                &&& 0 < ts.len() <= limit
                &&& forall|i: int| 0 <= i < ts.len() ==> valid_target(#[trigger] ts[i])
            },
            Err(_) => true,
        },
{
    if limit > 0 {
        lemma_expand_lines_extends(exprs, 0, Seq::empty(), limit);
    }
}

#[verifier::spinoff_prover]
#[verifier::rlimit(30)]
proof fn lemma_expand_lines_shift(a: Seq<Seq<char>>, b: Seq<Seq<char>>, j: int, ts: Seq<Seq<char>>, limit: nat)
    requires
        0 <= j <= b.len(),
    ensures
        expand_lines(a + b, a.len() + j, ts, limit) == expand_lines(b, j, ts, limit),
    decreases b.len() - j,
{
    if j < b.len() {
        assert((a + b)[a.len() + j] == b[j]);
        match expand_line(b[j], ts, limit) {
            Ok(next) => {
                lemma_expand_lines_shift(a, b, j + 1, next, limit);
            },
            Err(_) => {},
        }
    }
}

#[verifier::spinoff_prover]
#[verifier::rlimit(30)]
proof fn lemma_expand_lines_concat(a: Seq<Seq<char>>, b: Seq<Seq<char>>, k: int, ts: Seq<Seq<char>>, limit: nat)
    requires
        0 <= k <= a.len(),
    ensures
        expand_lines(a + b, k, ts, limit) == match expand_lines(a, k, ts, limit) {
            Ok(n) => expand_lines(b, 0, n, limit),
            Err(m) => Err(m),
        },
    decreases a.len() - k,
{
    if k < a.len() {
        assert((a + b)[k] == a[k]);
        match expand_line(a[k], ts, limit) {
            Ok(next) => {
                lemma_expand_lines_concat(a, b, k + 1, next, limit);
            },
            Err(_) => {},
        }
    } else {
        lemma_expand_lines_shift(a, b, 0, ts, limit);
    }
}

/// More expressions only add targets after those already named: when both lists are
/// accepted, the targets of `a` come first, in the same order, in those of `a` followed
/// by `b`.
pub proof fn later_expressions_only_append(a: Seq<Seq<char>>, b: Seq<Seq<char>>, limit: nat)
    ensures
        match (target_list(a, limit), target_list(a + b, limit)) {
            (Ok(ta), Ok(tab)) => prefix_of(ta, tab),
            _ => true,
        },
{
    if limit > 0 {
        lemma_expand_lines_concat(a, b, 0, Seq::empty(), limit);
        lemma_expand_lines_extends(a, 0, Seq::empty(), limit);
        match expand_lines(a, 0, Seq::empty(), limit) {
            Ok(n) => {
                lemma_expand_lines_extends(b, 0, n, limit);
            },
            Err(_) => {},
        }
    }
}

/// Every target of `a` is among those of `b`.
pub open spec fn within(a: Seq<Seq<char>>, b: Seq<Seq<char>>) -> bool {
    forall|x: Seq<char>| a.contains(x) ==> b.contains(x)
}

proof fn lemma_add_target_settles(ts: Seq<Seq<char>>, t: Seq<char>, limit: nat, u: Seq<Seq<char>>)
    ensures
        add_target(ts, t, limit) matches Ok(n) ==> within(ts, n) && n.contains(t),
        add_target(ts, t, limit) matches Ok(n) && within(n, u) ==> add_target(u, t, limit) == Ok::<
            Seq<Seq<char>>,
            Seq<char>,
        >(u),
{
    if !ts.contains(t) && ts.len() < limit {
        let n = ts.push(t);
        assert(n[ts.len() as int] == t);
        assert forall|x: Seq<char>| ts.contains(x) implies n.contains(x) by {
            let w = choose|w: int| 0 <= w < ts.len() && ts[w] == x;
            assert(n[w] == x);
        }
    }
}

proof fn lemma_add_range_settles(ts: Seq<Seq<char>>, v6: bool, cur: int, last: int, limit: nat, u: Seq<Seq<char>>)
    ensures
        add_range(ts, v6, cur, last, limit) matches Ok(n) ==> within(ts, n),
        add_range(ts, v6, cur, last, limit) matches Ok(n) && within(n, u) ==> add_range(
            u,
            v6,
            cur,
            last,
            limit,
        ) == Ok::<Seq<Seq<char>>, Seq<char>>(u),
    decreases last - cur + 1,
{
    if cur <= last {
        let d = ip_display(v6, cur as u128);
        lemma_add_target_settles(ts, d, limit, u);
        match add_target(ts, d, limit) {
            Ok(next) => {
                lemma_add_range_settles(next, v6, cur + 1, last, limit, u);
                match add_range(next, v6, cur + 1, last, limit) {
                    Ok(n) => {
                        if within(n, u) {
                            assert(u.contains(d));
                            assert(add_target(u, d, limit) == Ok::<Seq<Seq<char>>, Seq<char>>(u));
                        }
                    },
                    Err(_) => {},
                }
            },
            Err(_) => {},
        }
    }
}

proof fn lemma_expand_token_settles(ts: Seq<Seq<char>>, token: Seq<char>, limit: nat, u: Seq<Seq<char>>)
    ensures
        expand_token(ts, token, limit) matches Ok(n) ==> within(ts, n),
        expand_token(ts, token, limit) matches Ok(n) && within(n, u) ==> expand_token(u, token, limit)
            == Ok::<Seq<Seq<char>>, Seq<char>>(u),
{
    if contains(token, "/"@) {
        match ipnet_parse(token) {
            None => {},
            Some((v6, bits, prefix)) => {
                let (first, last) = cidr_hosts(v6, bits, prefix);
                lemma_add_range_settles(ts, v6, first as int, last as int, limit, u);
            },
        }
    } else {
        match ip_range(token) {
            Ok(Some((fa, va, fb, vb))) => {
                lemma_add_range_settles(ts, fa, va as int, vb as int, limit, u);
            },
            _ => {
                lemma_add_target_settles(ts, token, limit, u);
            },
        }
    }
}

proof fn lemma_expand_pieces_settles(ps: Seq<Seq<char>>, i: int, ts: Seq<Seq<char>>, limit: nat, u: Seq<Seq<char>>)
    ensures
        expand_pieces(ps, i, ts, limit) matches Ok(n) ==> within(ts, n),
        expand_pieces(ps, i, ts, limit) matches Ok(n) && within(n, u) ==> expand_pieces(ps, i, u, limit)
            == Ok::<Seq<Seq<char>>, Seq<char>>(u),
    decreases ps.len() - i,
{
    if 0 <= i < ps.len() {
        let t = trim(ps[i]);
        if skipped(t) {
            lemma_expand_pieces_settles(ps, i + 1, ts, limit, u);
        } else {
            lemma_expand_token_settles(ts, t, limit, u);
            match expand_token(ts, t, limit) {
                Ok(next) => {
                    lemma_expand_pieces_settles(ps, i + 1, next, limit, u);
                },
                Err(_) => {},
            }
        }
    }
}

proof fn lemma_expand_lines_settles(ls: Seq<Seq<char>>, k: int, ts: Seq<Seq<char>>, limit: nat, u: Seq<Seq<char>>)
    ensures
        expand_lines(ls, k, ts, limit) matches Ok(n) ==> within(ts, n),
        expand_lines(ls, k, ts, limit) matches Ok(n) && within(n, u) ==> expand_lines(ls, k, u, limit)
            == Ok::<Seq<Seq<char>>, Seq<char>>(u),
    decreases ls.len() - k,
{
    if 0 <= k < ls.len() {
        if !comment_line(ls[k]) {
            lemma_expand_pieces_settles(split(ls[k], ','), 0, ts, limit, u);
        }
        match expand_line(ls[k], ts, limit) {
            Ok(next) => {
                lemma_expand_lines_settles(ls, k + 1, next, limit, u);
            },
            Err(_) => {},
        }
    }
}

/// Giving the same expressions twice names the same targets, or fails the same way: a
/// target named again is not counted again against the limit.
pub proof fn repeating_expressions_changes_nothing(exprs: Seq<Seq<char>>, limit: nat)
    ensures
        target_list(exprs + exprs, limit) == target_list(exprs, limit),
{
    if limit > 0 {
        lemma_expand_lines_concat(exprs, exprs, 0, Seq::empty(), limit);
        match expand_lines(exprs, 0, Seq::empty(), limit) {
            Ok(n) => {
                lemma_expand_lines_settles(exprs, 0, Seq::empty(), limit, n);
            },
            Err(_) => {},
        }
    }
}

/// Expressions joined into one by commas.
pub open spec fn joined(ls: Seq<Seq<char>>) -> Seq<char>
    decreases ls.len(),
{
    if ls.len() == 0 {
        Seq::empty()
    } else if ls.len() == 1 {
        ls[0]
    } else {
        joined(ls.drop_last()) + seq![','] + ls.last()
    }
}

/// The first character of `s` that is not white space, if any, is not `#`.
spec fn no_hash_lead(s: Seq<char>) -> bool {
    skip_ws(s, 0) < s.len() ==> s[skip_ws(s, 0)] != '#'
}

proof fn lemma_skip_ws_stops(s: Seq<char>, i: int)
    requires
        0 <= i <= s.len(),
    ensures
        skip_ws(s, i) < s.len() ==> !is_white_space(s[skip_ws(s, i)]),
    decreases s.len() - i,
{
    if i < s.len() && is_white_space(s[i]) {
        lemma_skip_ws_stops(s, i + 1);
    }
}

proof fn lemma_lead_of_line(s: Seq<char>)
    ensures
        no_hash_lead(s) <==> !comment_line(s),
{
    let a = skip_ws(s, 0);
    lemma_skip_ws_bounds(s, 0);
    lemma_skip_ws_stops(s, 0);
    lemma_trim_end_bounds(s, s.len() as int);
    if a < s.len() {
        lemma_trim_end_keeps(s, a, s.len() as int);
        assert(trim(s)[0] == s[a]);
    }
}

proof fn lemma_joined_lead(ls: Seq<Seq<char>>)
    requires
        forall|i: int| 0 <= i < ls.len() ==> !comment_line(#[trigger] ls[i]),
    ensures
        no_hash_lead(joined(ls)),
    decreases ls.len(),
{
    if ls.len() == 1 {
        lemma_lead_of_line(ls[0]);
    } else if ls.len() > 1 {
        let q = ls.drop_last();
        assert forall|i: int| 0 <= i < q.len() implies !comment_line(#[trigger] q[i]) by {
            assert(q[i] == ls[i]);
        }
        lemma_joined_lead(q);
        let jq = joined(q);
        let rest = seq![','] + ls.last();
        assert(joined(ls) =~= jq + rest);
        lemma_skip_ws_prefix(jq, rest, 0);
        lemma_skip_ws_bounds(jq, 0);
        if skip_ws(jq, 0) < jq.len() {
            assert(joined(ls)[skip_ws(jq, 0)] == jq[skip_ws(jq, 0)]);
        } else {
            assert(rest[0] == ',');
            assert(!is_white_space(','));
            assert(skip_ws(rest, 0) == 0);
            assert(joined(ls)[jq.len() as int] == ',');
        }
    }
}

#[verifier::spinoff_prover]
proof fn lemma_expand_pieces_shift(a: Seq<Seq<char>>, b: Seq<Seq<char>>, j: int, ts: Seq<Seq<char>>, limit: nat)
    requires
        0 <= j <= b.len(),
    ensures
        expand_pieces(a + b, a.len() + j, ts, limit) == expand_pieces(b, j, ts, limit),
    decreases b.len() - j,
{
    if j < b.len() {
        assert((a + b)[a.len() + j] == b[j]);
        let t = trim(b[j]);
        if skipped(t) {
            lemma_expand_pieces_shift(a, b, j + 1, ts, limit);
        } else {
            match expand_token(ts, t, limit) {
                Ok(next) => {
                    lemma_expand_pieces_shift(a, b, j + 1, next, limit);
                },
                Err(_) => {},
            }
        }
    }
}

#[verifier::spinoff_prover]
proof fn lemma_expand_pieces_concat(a: Seq<Seq<char>>, b: Seq<Seq<char>>, i: int, ts: Seq<Seq<char>>, limit: nat)
    requires
        0 <= i <= a.len(),
    ensures
        expand_pieces(a + b, i, ts, limit) == match expand_pieces(a, i, ts, limit) {
            Ok(n) => expand_pieces(b, 0, n, limit),
            Err(m) => Err(m),
        },
    decreases a.len() - i,
{
    if i < a.len() {
        assert((a + b)[i] == a[i]);
        let t = trim(a[i]);
        if skipped(t) {
            lemma_expand_pieces_concat(a, b, i + 1, ts, limit);
        } else {
            match expand_token(ts, t, limit) {
                Ok(next) => {
                    lemma_expand_pieces_concat(a, b, i + 1, next, limit);
                },
                Err(_) => {},
            }
        }
    } else {
        lemma_expand_pieces_shift(a, b, 0, ts, limit);
    }
}

proof fn lemma_single_line(x: Seq<char>, ts: Seq<Seq<char>>, limit: nat)
    requires
        !comment_line(x),
    ensures
        expand_lines(seq![x], 0, ts, limit) == expand_pieces(split(x, ','), 0, ts, limit),
{
    let ls = seq![x];
    assert(ls[0] == x);
    match expand_pieces(split(x, ','), 0, ts, limit) {
        Ok(n) => {
            assert(expand_lines(ls, 1, n, limit) == Ok::<Seq<Seq<char>>, Seq<char>>(n));
        },
        Err(_) => {},
    }
}

proof fn lemma_no_line(ts: Seq<Seq<char>>, limit: nat)
    ensures
        expand_pieces(split(Seq::<char>::empty(), ','), 0, ts, limit) == Ok::<
            Seq<Seq<char>>,
            Seq<char>,
        >(ts),
        expand_lines(Seq::<Seq<char>>::empty(), 0, ts, limit) == Ok::<Seq<Seq<char>>, Seq<char>>(
            ts,
        ),
{
    let e = Seq::<char>::empty();
    lemma_split_without(e, ',');
    let ps = split(e, ',');
    assert(ps.len() == 1 && ps[0] == e);
    assert(skip_ws(e, 0) == 0);
    assert(trim(e) =~= e);
    assert(skipped(trim(ps[0])));
    assert(expand_pieces(ps, 1, ts, limit) == Ok::<Seq<Seq<char>>, Seq<char>>(ts));
    assert(expand_pieces(ps, 0, ts, limit) == expand_pieces(ps, 1, ts, limit));
}

#[verifier::spinoff_prover]
#[verifier::rlimit(40)]
proof fn lemma_joined_expands(ls: Seq<Seq<char>>, ts: Seq<Seq<char>>, limit: nat)
    requires
        forall|i: int| 0 <= i < ls.len() ==> !comment_line(#[trigger] ls[i]),
    ensures
        expand_pieces(split(joined(ls), ','), 0, ts, limit) == expand_lines(ls, 0, ts, limit),
    decreases ls.len(),
{
    if ls.len() == 0 {
        lemma_no_line(ts, limit);
        assert(ls =~= Seq::<Seq<char>>::empty());
    } else if ls.len() == 1 {
        assert(ls =~= seq![ls[0]]);
        lemma_single_line(ls[0], ts, limit);
    } else {
        let q = ls.drop_last();
        let x = ls.last();
        assert forall|i: int| 0 <= i < q.len() implies !comment_line(#[trigger] q[i]) by {
            assert(q[i] == ls[i]);
        }
        assert(!comment_line(ls[ls.len() - 1]));
        assert(ls =~= q + seq![x]);
        assert(joined(ls) == joined(q) + seq![','] + x);
        lemma_joined_expands(q, ts, limit);
        lemma_joined_step(q, x, ts, limit);
    }
}

#[verifier::spinoff_prover]
proof fn lemma_joined_step(q: Seq<Seq<char>>, x: Seq<char>, ts: Seq<Seq<char>>, limit: nat)
    requires
        !comment_line(x),
        expand_pieces(split(joined(q), ','), 0, ts, limit) == expand_lines(q, 0, ts, limit),
    ensures
        expand_pieces(split(joined(q) + seq![','] + x, ','), 0, ts, limit) == expand_lines(
            q + seq![x],
            0,
            ts,
            limit,
        ),
{
    lemma_expand_lines_concat(q, seq![x], 0, ts, limit);
    lemma_split_concat(joined(q), ',', x);
    lemma_expand_pieces_concat(split(joined(q), ','), split(x, ','), 0, ts, limit);
    match expand_lines(q, 0, ts, limit) {
        Ok(n) => {
            lemma_single_line(x, n, limit);
        },
        Err(_) => {},
    }
}

/// Expressions given one by one name the same targets, or fail the same way, as the one
/// expression that joins them with commas, unless one of them is a comment line (which
/// names nothing on its own, while joined its later pieces count).
pub proof fn joining_expressions_with_commas_changes_nothing(exprs: Seq<Seq<char>>, limit: nat)
    requires
        forall|i: int| 0 <= i < exprs.len() ==> !comment_line(#[trigger] exprs[i]),
    ensures
        target_list(seq![joined(exprs)], limit) == target_list(exprs, limit),
{
    lemma_joined_lead(exprs);
    lemma_lead_of_line(joined(exprs));
    lemma_joined_expands(exprs, Seq::empty(), limit);
    lemma_single_line(joined(exprs), Seq::empty(), limit);
}

} // verus!
