//! Port expressions such as `22,80,443,8000-8010`.
use vstd::prelude::*;
use crate::text::{
    chars_of, lemma_split_concat, parse_unsigned, parse_unsigned_chars, push_all, split, split_chars, split_once,
    split_once_chars, string_from, trim, trim_chars, views,
};
use crate::{PscanError, rejects_with};

verus! {

/// A port number from text: a decimal `u16` other than zero, surrounding white space
/// ignored.
pub open spec fn port_value(v: Seq<char>) -> Option<u16> {
    match parse_unsigned(trim(v), 65535) {
        Some(n) => if n > 0 {
            Some(n as u16)
        } else {
            None
        },
        None => None,
    }
}

/// The message for a port that does not parse.
pub open spec fn invalid_port_message(v: Seq<char>) -> Seq<char> {
    "invalid port: "@ + v
}

/// The ports from `start` to `end`, both included.
pub open spec fn port_range(start: u16, end: u16) -> Set<u16> {
    Set::new(|p: u16| start <= p <= end)
}

/// The ports named by the comma-separated pieces `pieces[i..]`, added to `acc`, or the
/// message of the first piece that is rejected. Pieces that are blank once trimmed are
/// skipped; a piece with a `-` is an inclusive range.
pub open spec fn ports_from(pieces: Seq<Seq<char>>, i: int, acc: Set<u16>) -> std::result::Result<
    Set<u16>,
    Seq<char>,
>
    decreases pieces.len() - i,
{
    if i < 0 || i >= pieces.len() {
        Ok(acc)
    } else {
        let item = trim(pieces[i]);
        if item.len() == 0 {
            ports_from(pieces, i + 1, acc)
        } else {
            match split_once(item, '-') {
                Some((a, b)) => match port_value(a) {
                    None => Err(invalid_port_message(a)),
                    Some(start) => match port_value(b) {
                        None => Err(invalid_port_message(b)),
                        Some(end) => if start > end {
                            Err("descending port range: "@ + item)
                        } else {
                            ports_from(pieces, i + 1, acc.union(port_range(start, end)))
                        },
                    },
                },
                None => match port_value(item) {
                    None => Err(invalid_port_message(item)),
                    Some(p) => ports_from(pieces, i + 1, acc.insert(p)),
                },
            }
        }
    }
}

/// The set of ports an expression names, or why it is rejected.
pub open spec fn port_set(expression: Seq<char>) -> std::result::Result<Set<u16>, Seq<char>> {
    match ports_from(split(expression, ','), 0, Set::empty()) {
        Ok(s) => if s.is_empty() {
            Err("no ports supplied"@)
        } else {
            Ok(s)
        },
        Err(m) => Err(m),
    }
}

/// `v` lists the ports of `s` in increasing order, each once.
pub open spec fn lists_in_order(v: Seq<u16>, s: Set<u16>) -> bool {
    &&& forall|i: int, j: int| 0 <= i < j < v.len() ==> v[i] < v[j]
    &&& forall|p: u16| s.contains(p) <==> v.contains(p)
}

fn invalid_port(v: &[char]) -> (e: PscanError)
    ensures
        rejects_with(e, invalid_port_message(v@)),
{
    let mut m = chars_of("invalid port: ");
    push_all(&mut m, v);
    PscanError::InvalidInput(string_from(&m))
}

fn parse_port(value: &[char]) -> (r: Option<u16>)
    ensures
        r == port_value(value@),
{
    let t = trim_chars(value);
    match parse_unsigned_chars(&t, 65535) {
        Some(n) => if n > 0 {
            Some(n as u16)
        } else {
            None
        },
        None => None,
    }
}

/// Parses a port expression: comma-separated ports and inclusive ranges `a-b`. The result
/// lists every named port once, in increasing order. Rejected: a piece that is not a
/// port from 1 to 65535, a range whose start exceeds its end, and an expression that
/// names no port.
pub fn parse_ports(expression: &str) -> (r: crate::Result<Vec<u16>>)
    ensures
        match (r, port_set(expression@)) {
            (Ok(v), Ok(s)) => lists_in_order(v@, s),
            (Err(e), Err(m)) => rejects_with(e, m),
            _ => false,
        },
{
    let chars = chars_of(expression);
    let pieces = split_chars(&chars, ',');
    let ghost all = views(pieces@);
    let mut present: Vec<bool> = Vec::new();
    let mut k: usize = 0;
    while k < 65536
        invariant
            0 <= k <= 65536,
            present@.len() == k,
            forall|m: int| 0 <= m < k ==> !present@[m],
        decreases 65536 - k,
    {
        present.push(false);
        k = k + 1;
    }
    let ghost mut acc: Set<u16> = Set::empty();
    let mut i: usize = 0;
    while i < pieces.len()
        invariant
            0 <= i <= pieces@.len(),
            all == views(pieces@),
            all == split(expression@, ','),
            present@.len() == 65536,
            forall|p: u16| #[trigger] present@[p as int] == acc.contains(p),
            ports_from(all, i as int, acc) == ports_from(all, 0, Set::empty()),
        decreases pieces@.len() - i,
    {
        let item = trim_chars(&pieces[i]);
        assert(all[i as int] == pieces@[i as int]@);
        if item.len() > 0 {
            match split_once_chars(&item, '-') {
                Some((a, b)) => {
                    let start = match parse_port(&a) {
                        Some(p) => p,
                        None => return Err(invalid_port(&a)),
                    };
                    let end = match parse_port(&b) {
                        Some(p) => p,
                        None => return Err(invalid_port(&b)),
                    };
                    if start > end {
                        let mut m = chars_of("descending port range: ");
                        push_all(&mut m, &item);
                        return Err(PscanError::InvalidInput(string_from(&m)));
                    }
                    let mut p: u32 = start as u32;
                    let ghost before = acc;
                    while p <= end as u32
                        invariant
                            start <= p <= end as u32 + 1,
                            present@.len() == 65536,
                            acc == before.union(
                                Set::new(|q: u16| start <= q && (q as u32) < p),
                            ),
                            forall|q: u16| #[trigger] present@[q as int] == acc.contains(q),
                        decreases end as u32 + 1 - p,
                    {
                        present.set(p as usize, true);
                        proof {
                            let pp = p as u16;
                            acc = acc.insert(pp);
                            assert(acc =~= before.union(
                                Set::new(|q: u16| start <= q && (q as u32) < p + 1),
                            ));
                        }
                        p = p + 1;
                    }
                    proof {
                        assert(acc =~= before.union(port_range(start, end)));
                    }
                },
                None => {
                    let port = match parse_port(&item) {
                        Some(p) => p,
                        None => return Err(invalid_port(&item)),
                    };
                    present.set(port as usize, true);
                    proof {
                        acc = acc.insert(port);
                    }
                },
            }
        }
        i = i + 1;
    }
    let mut out: Vec<u16> = Vec::new();
    let mut q: u32 = 0;
    while q < 65536
        invariant
            0 <= q <= 65536,
            present@.len() == 65536,
            forall|p: u16| #[trigger] present@[p as int] == acc.contains(p),
            forall|a: int, b: int| 0 <= a < b < out@.len() ==> out@[a] < out@[b],
            forall|a: int| 0 <= a < out@.len() ==> (out@[a] as u32) < q,
            forall|p: u16| (p as u32) < q ==> (acc.contains(p) <==> out@.contains(p)),
        decreases 65536 - q,
    {
        if present[q as usize] {
            let ghost old_out = out@;
            out.push(q as u16);
            proof {
                assert(out@ == old_out.push(q as u16));
                assert forall|p: u16| old_out.contains(p) implies out@.contains(p) by {
                    let w = choose|w: int| 0 <= w < old_out.len() && old_out[w] == p;
                    assert(out@[w] == p);
                }
                assert(out@[out@.len() - 1] == q as u16);
                assert forall|p: u16| (p as u32) < q + 1 implies (acc.contains(p)
                    <==> out@.contains(p)) by {
                    if out@.contains(p) && p as u32 != q {
                        let w = choose|w: int| 0 <= w < out@.len() && out@[w] == p;
                        assert(w < old_out.len());
                        assert(old_out.contains(p));
                    }
                }
            }
        } else {
            proof {
                assert forall|p: u16| (p as u32) < q + 1 implies (acc.contains(p)
                    <==> out@.contains(p)) by {
                    if p as u32 == q && out@.contains(p) {
                        let w = choose|w: int| 0 <= w < out@.len() && out@[w] == p;
                        assert((out@[w] as u32) < q);
                    }
                }
            }
        }
        q = q + 1;
    }
    if out.len() == 0 {
        proof {
            assert(acc =~= Set::<u16>::empty()) by {
                assert forall|p: u16| !acc.contains(p) by {
                    assert((p as u32) < q);
                    assert(!out@.contains(p));
                }
            }
        }
        return Err(PscanError::InvalidInput(string_from(&chars_of("no ports supplied"))));
    }
    proof {
        assert(out@.contains(out@[0]));
        assert((out@[0] as u32) < q);
        assert(acc.contains(out@[0]));
        assert(!acc.is_empty());
    }
    Ok(out)
}

// ---------------------------------------------------------------- laws

proof fn lemma_ports_from_acc(ps: Seq<Seq<char>>, i: int, acc: Set<u16>)
    ensures
        ports_from(ps, i, acc) == match ports_from(ps, i, Set::empty()) {
            Ok(s) => Ok::<Set<u16>, Seq<char>>(acc.union(s)),
            Err(m) => Err(m),
        },
    decreases ps.len() - i,
{
    let e = Set::<u16>::empty();
    if i < 0 || i >= ps.len() {
        assert(acc.union(e) =~= acc);
    } else {
        let item = trim(ps[i]);
        if item.len() == 0 {
            lemma_ports_from_acc(ps, i + 1, acc);
        } else {
            match split_once(item, '-') {
                Some((x, y)) => match (port_value(x), port_value(y)) {
                    (Some(start), Some(end)) => {
                        if start <= end {
                            let add = port_range(start, end);
                            lemma_ports_from_acc(ps, i + 1, acc.union(add));
                            lemma_ports_from_acc(ps, i + 1, e.union(add));
                            match ports_from(ps, i + 1, e) {
                                Ok(rest) => {
                                    assert(acc.union(add).union(rest) =~= acc.union(
                                        e.union(add).union(rest),
                                    ));
                                },
                                Err(_) => {},
                            }
                        }
                    },
                    _ => {},
                },
                None => match port_value(item) {
                    Some(p) => {
                        lemma_ports_from_acc(ps, i + 1, acc.insert(p));
                        lemma_ports_from_acc(ps, i + 1, e.insert(p));
                        match ports_from(ps, i + 1, e) {
                            Ok(rest) => {
                                assert(acc.insert(p).union(rest) =~= acc.union(
                                    e.insert(p).union(rest),
                                ));
                            },
                            Err(_) => {},
                        }
                    },
                    None => {},
                },
            }
        }
    }
}

proof fn lemma_ports_from_shift(a: Seq<Seq<char>>, b: Seq<Seq<char>>, j: int, acc: Set<u16>)
    requires
        0 <= j <= b.len(),
    ensures
        ports_from(a + b, a.len() + j, acc) == ports_from(b, j, acc),
    decreases b.len() - j,
{
    if j < b.len() {
        assert((a + b)[a.len() + j] == b[j]);
        let item = trim(b[j]);
        lemma_ports_from_shift(a, b, j + 1, acc);
        match split_once(item, '-') {
            Some((x, y)) => match (port_value(x), port_value(y)) {
                (Some(start), Some(end)) => {
                    lemma_ports_from_shift(a, b, j + 1, acc.union(port_range(start, end)));
                },
                _ => {},
            },
            None => match port_value(item) {
                Some(p) => {
                    lemma_ports_from_shift(a, b, j + 1, acc.insert(p));
                },
                None => {},
            },
        }
    }
}

proof fn lemma_ports_from_concat(a: Seq<Seq<char>>, b: Seq<Seq<char>>, i: int, acc: Set<u16>)
    requires
        0 <= i <= a.len(),
    ensures
        ports_from(a + b, i, acc) == match ports_from(a, i, acc) {
            Ok(s) => ports_from(b, 0, s),
            Err(m) => Err(m),
        },
    decreases a.len() - i,
{
    if i < a.len() {
        assert((a + b)[i] == a[i]);
        let item = trim(a[i]);
        lemma_ports_from_concat(a, b, i + 1, acc);
        match split_once(item, '-') {
            Some((x, y)) => match (port_value(x), port_value(y)) {
                (Some(start), Some(end)) => {
                    lemma_ports_from_concat(a, b, i + 1, acc.union(port_range(start, end)));
                },
                _ => {},
            },
            None => match port_value(item) {
                Some(p) => {
                    lemma_ports_from_concat(a, b, i + 1, acc.insert(p));
                },
                None => {},
            },
        }
    } else {
        lemma_ports_from_shift(a, b, 0, acc);
    }
}

/// The ports of `a,b` are those of `a` together with those of `b`, whatever their order
/// and overlap; so `a,b` and `b,a` name the same ports, and `a,a` those of `a`.
pub proof fn ports_of_a_list_are_the_union(a: Seq<char>, b: Seq<char>)
    ensures
        match (port_set(a), port_set(b)) {
            (Ok(sa), Ok(sb)) => {
                &&& port_set(a + seq![','] + b) == Ok::<Set<u16>, Seq<char>>(sa.union(sb))
                &&& port_set(b + seq![','] + a) == port_set(a + seq![','] + b)
            },
            _ => true,
        },
{
    lemma_split_concat(a, ',', b);
    lemma_split_concat(b, ',', a);
    let pa = split(a, ',');
    let pb = split(b, ',');
    lemma_ports_from_concat(pa, pb, 0, Set::empty());
    lemma_ports_from_concat(pb, pa, 0, Set::empty());
    match (port_set(a), port_set(b)) {
        (Ok(sa), Ok(sb)) => {
            lemma_ports_from_acc(pb, 0, sa);
            lemma_ports_from_acc(pa, 0, sb);
            assert(sa.union(sb) =~= sb.union(sa));
            assert(!sa.union(sb).is_empty()) by {
                let p = sa.choose();
                assert(sa.contains(p));
                assert(sa.union(sb).contains(p));
            }
        },
        _ => {},
    }
}

} // verus!
