//! Release-version comparison and the decisions of the update check.
use vstd::prelude::*;
use crate::text::{
    chars_eq, chars_of, lemma_text_less_asym, less_chars, lower_all, lower_chars, parse_unsigned,
    parse_unsigned_chars, slice_of, split, split_chars, text_less, trim, trim_chars, views,
};

verus! {

/// The index of the first character at or after `i` that is not `v`.
pub open spec fn skip_v(s: Seq<char>, i: int) -> int
    decreases s.len() - i,
{
    if 0 <= i < s.len() && s[i] == 'v' {
        skip_v(s, i + 1)
    } else {
        i
    }
}

/// `s.trim_start_matches('v')`.
pub open spec fn strip_v(s: Seq<char>) -> Seq<char> {
    s.subrange(skip_v(s, 0), s.len() as int)
}

/// The values of the pieces `ps[i..]`, in order, when every one of them reads as `u64`.
pub open spec fn numbers_from(ps: Seq<Seq<char>>, i: int) -> Option<Seq<u64>>
    decreases ps.len() - i,
{
    if i < 0 || i >= ps.len() {
        Some(Seq::empty())
    } else {
        match parse_unsigned(ps[i], 0xffff_ffff_ffff_ffff) {
            Some(v) => match numbers_from(ps, i + 1) {
                Some(rest) => Some(seq![v as u64] + rest),
                None => None,
            },
            None => None,
        }
    }
}

/// The dot-separated components of a version, when all of them are numeric.
pub open spec fn version_parts(s: Seq<char>) -> Option<Seq<u64>> {
    numbers_from(split(s, '.'), 0)
}

/// Component `i`, or zero past the end.
pub open spec fn part(p: Seq<u64>, i: int) -> u64 {
    if 0 <= i < p.len() {
        p[i]
    } else {
        0
    }
}

/// `r` is greater than `l` in the first component from `i` on where they differ.
pub open spec fn parts_newer(l: Seq<u64>, r: Seq<u64>, i: int) -> bool
    decreases (if l.len() > r.len() {
        l.len()
    } else {
        r.len()
    }) - i,
{
    if i < 0 || (i >= l.len() && i >= r.len()) {
        false
    } else if part(r, i) > part(l, i) {
        true
    } else if part(l, i) > part(r, i) {
        false
    } else {
        parts_newer(l, r, i + 1)
    }
}

/// `remote` is a strictly newer version than `local`: leading `v`s are ignored, and the
/// dot-separated components are compared as numbers in order, missing ones counting as
/// zero; when a component of either side is not numeric the texts are compared instead.
pub open spec fn newer(local: Seq<char>, remote: Seq<char>) -> bool {
    let l = strip_v(local);
    let r = strip_v(remote);
    match (version_parts(l), version_parts(r)) {
        (Some(lp), Some(rp)) => parts_newer(lp, rp, 0),
        _ => text_less(l, r, 0),
    }
}

proof fn lemma_skip_v_bounds(s: Seq<char>, i: int)
    requires
        0 <= i <= s.len(),
    ensures
        i <= skip_v(s, i) <= s.len(),
    decreases s.len() - i,
{
    if i < s.len() && s[i] == 'v' {
        lemma_skip_v_bounds(s, i + 1);
    }
}

fn strip_leading_v(s: &[char]) -> (r: Vec<char>)
    ensures
        r@ == strip_v(s@),
{
    let n = s.len();
    let mut i: usize = 0;
    while i < n && s[i] == 'v'
        invariant
            n == s@.len(),
            0 <= i <= n,
            skip_v(s@, i as int) == skip_v(s@, 0),
        decreases n - i,
    {
        i = i + 1;
    }
    slice_of(s, i, n)
}

fn parts_of(s: &[char]) -> (r: Option<Vec<u64>>)
    ensures
        match r {
            Some(v) => version_parts(s@) == Some(v@),
            None => version_parts(s@) is None,
        },
{
    let pieces = split_chars(s, '.');
    let ghost ps = views(pieces@);
    let mut out: Vec<u64> = Vec::new();
    let mut i: usize = 0;
    while i < pieces.len()
        invariant
            0 <= i <= pieces@.len(),
            ps == views(pieces@),
            ps == split(s@, '.'),
            version_parts(s@) == match numbers_from(ps, i as int) {
                Some(rest) => Some(out@ + rest),
                None => None,
            },
        decreases pieces@.len() - i,
    {
        assert(ps[i as int] == pieces@[i as int]@);
        match parse_unsigned_chars(&pieces[i], 0xffff_ffff_ffff_ffff) {
            Some(v) => {
                proof {
                    match numbers_from(ps, i + 1) {
                        Some(rest) => {
                            assert(out@ + (seq![v as u64] + rest) =~= out@.push(v) + rest);
                        },
                        None => {},
                    }
                }
                out.push(v);
            },
            None => {
                return None;
            },
        }
        i = i + 1;
    }
    assert(out@ + Seq::<u64>::empty() =~= out@);
    Some(out)
}

/// Whether `remote` is a strictly newer version than `local`, such as `2.0.1` against
/// `v2.0.0`.
pub fn is_newer(local: &str, remote: &str) -> (r: bool)
    ensures
        r == newer(local@, remote@),
{
    let l = strip_leading_v(&chars_of(local));
    let r = strip_leading_v(&chars_of(remote));
    let (lp, rp) = match (parts_of(&l), parts_of(&r)) {
        (Some(lp), Some(rp)) => (lp, rp),
        _ => {
            return less_chars(l.as_slice(), r.as_slice());
        },
    };
    {
        let len = if lp.len() > rp.len() {
            lp.len()
        } else {
            rp.len()
        };
        let mut i: usize = 0;
        while i < len
            invariant
                l@ == strip_v(local@),
                r@ == strip_v(remote@),
                version_parts(l@) == Some(lp@),
                version_parts(r@) == Some(rp@),
                len == if lp@.len() > rp@.len() {
                    lp@.len()
                } else {
                    rp@.len()
                },
                0 <= i <= len,
                parts_newer(lp@, rp@, 0) == parts_newer(lp@, rp@, i as int),
            decreases len - i,
        {
            let a: u64 = if i < lp.len() {
                lp[i]
            } else {
                0
            };
            let b: u64 = if i < rp.len() {
                rp[i]
            } else {
                0
            };
            if b > a {
                return true;
            }
            if a > b {
                return false;
            }
            i = i + 1;
        }
        false
    }
}

proof fn lemma_parts_newer_asym(l: Seq<u64>, r: Seq<u64>, i: int)
    requires
        i >= 0,
    ensures
        !(parts_newer(l, r, i) && parts_newer(r, l, i)),
        !parts_newer(l, l, i),
    decreases (if l.len() > r.len() {
        l.len()
    } else {
        r.len()
    }) - i,
{
    if !(i >= l.len() && i >= r.len()) {
        lemma_parts_newer_asym(l, r, i + 1);
    }
    if i < l.len() {
        lemma_parts_newer_asym(l, l, i + 1);
    }
}

/// No version is newer than itself, and of two versions at most one is newer than the
/// other.
pub proof fn newer_is_irreflexive_and_asymmetric(a: Seq<char>, b: Seq<char>)
    ensures
        !newer(a, a),
        !(newer(a, b) && newer(b, a)),
{
    let sa = strip_v(a);
    let sb = strip_v(b);
    lemma_text_less_asym(sa, sb, 0);
    match (version_parts(sa), version_parts(sb)) {
        (Some(pa), Some(pb)) => {
            lemma_parts_newer_asym(pa, pb, 0);
        },
        _ => {},
    }
    match version_parts(sa) {
        Some(pa) => {
            lemma_parts_newer_asym(pa, pa, 0);
        },
        None => {},
    }
}

proof fn lemma_parts_newer_trans(a: Seq<u64>, b: Seq<u64>, c: Seq<u64>, i: int)
    requires
        i >= 0,
        parts_newer(a, b, i),
        parts_newer(b, c, i),
    ensures
        parts_newer(a, c, i),
    decreases (if a.len() > b.len() {
        if a.len() > c.len() {
            a.len()
        } else {
            c.len()
        }
    } else if b.len() > c.len() {
        b.len()
    } else {
        c.len()
    }) - i,
{
    if part(a, i) == part(b, i) && part(b, i) == part(c, i) {
        lemma_parts_newer_trans(a, b, c, i + 1);
    }
}

/// Among versions whose components are all numeric, being newer is transitive. (With
/// the textual fallback it is not: `5` is newer than `1a` and `10` newer than `5`, yet
/// `10` sorts before `1a` as text.)
pub proof fn newer_is_transitive_on_numbered_versions(a: Seq<char>, b: Seq<char>, c: Seq<char>)
    requires
        version_parts(strip_v(a)) is Some,
        version_parts(strip_v(b)) is Some,
        version_parts(strip_v(c)) is Some,
        newer(a, b),
        newer(b, c),
    ensures
        newer(a, c),
{
    lemma_parts_newer_trans(
        version_parts(strip_v(a))->0,
        version_parts(strip_v(b))->0,
        version_parts(strip_v(c))->0,
        0,
    );
}

/// A leading `v` on either version does not change the comparison.
pub proof fn newer_ignores_v_prefix(a: Seq<char>, b: Seq<char>)
    ensures
        newer(seq!['v'] + a, b) == newer(a, b),
        newer(a, seq!['v'] + b) == newer(a, b),
{
    lemma_strip_v_prefix(a);
    lemma_strip_v_prefix(b);
}

proof fn lemma_skip_v_shift(a: Seq<char>, i: int)
    requires
        0 <= i <= a.len(),
    ensures
        skip_v(seq!['v'] + a, i + 1) == skip_v(a, i) + 1,
    decreases a.len() - i,
{
    let va = seq!['v'] + a;
    assert(va.len() == a.len() + 1);
    if i < a.len() {
        assert(va[i + 1] == a[i]);
        if a[i] == 'v' {
            lemma_skip_v_shift(a, i + 1);
        }
    }
}

proof fn lemma_strip_v_prefix(a: Seq<char>)
    ensures
        strip_v(seq!['v'] + a) == strip_v(a),
{
    let va = seq!['v'] + a;
    assert(va[0] == 'v');
    lemma_skip_v_shift(a, 0);
    lemma_skip_v_bounds(a, 0);
    assert(va.subrange(skip_v(va, 0), va.len() as int) =~= a.subrange(skip_v(a, 0), a.len() as int));
}

/// The outcome of an update check.
pub struct CheckOutcome {
    pub current: String,
    pub latest: String,
    pub is_newer: bool,
}

/// The outcome of an update check, given the running version and the latest release
/// the check found.
pub fn check_now(current: String, latest: String) -> (r: CheckOutcome)
    ensures
        r.current@ == current@,
        r.latest@ == latest@,
        r.is_newer == newer(current@, latest@),
{
    let is_newer = is_newer(current.as_str(), latest.as_str());
    CheckOutcome { current, latest, is_newer }
}

/// How long a recorded check stays fresh, in seconds.
pub const CACHE_TTL_SECS: u64 = 86400;

/// A check recorded at `checked_at` is fresh at `now` (both in seconds since the epoch)
/// when less than a day has passed; a clock that went backwards counts as no time.
pub fn cache_is_fresh(checked_at: u64, now: u64) -> (r: bool)
    ensures
        r == (if now >= checked_at {
            now - checked_at
        } else {
            0
        } < CACHE_TTL_SECS),
{
    let elapsed = if now >= checked_at {
        now - checked_at
    } else {
        0
    };
    elapsed < CACHE_TTL_SECS
}

/// Whether the startup check can be skipped: a check was recorded (at `cached_check`)
/// and is still fresh at `now`.
pub fn should_skip_check(cached_check: Option<u64>, now: u64) -> (r: bool)
    ensures
        r == match cached_check {
            Some(at) => (if now >= at {
                now - at
            } else {
                0
            }) < CACHE_TTL_SECS,
            None => false,
        },
{
    match cached_check {
        Some(at) => cache_is_fresh(at, now),
        None => false,
    }
}

/// Whether to offer an update: the recorded release is newer than the running version
/// and the user has not declined that very release.
pub fn should_prompt(current: &str, latest: &str, skipped: Option<&str>) -> (r: bool)
    ensures
        r == (newer(current@, latest@) && match skipped {
            Some(s) => s@ != latest@,
            None => true,
        }),
{
    if !is_newer(current, latest) {
        return false;
    }
    match skipped {
        Some(s) => !chars_eq(&chars_of(s), &chars_of(latest)),
        None => true,
    }
}

/// What the user answered to the update offer.
#[derive(Debug, Clone, Copy, PartialEq, Eq)]
pub enum PromptAnswer {
    Update,
    Skip,
    Ignore,
}

/// The answer in a line typed at the update offer: `y`/`yes` updates, `s`/`skip` declines
/// this release, anything else does nothing; case and surrounding white space do not
/// matter.
pub open spec fn answer_of(line: Seq<char>) -> PromptAnswer {
    let a = lower_all(trim(line));
    if a == "y"@ || a == "yes"@ {
        PromptAnswer::Update
    } else if a == "s"@ || a == "skip"@ {
        PromptAnswer::Skip
    } else {
        PromptAnswer::Ignore
    }
}

/// Reads the answer to the update offer.
pub fn prompt_answer(line: &str) -> (r: PromptAnswer)
    ensures
        r == answer_of(line@),
{
    let a = lower_chars(&trim_chars(&chars_of(line)));
    if chars_eq(&a, &chars_of("y")) || chars_eq(&a, &chars_of("yes")) {
        PromptAnswer::Update
    } else if chars_eq(&a, &chars_of("s")) || chars_eq(&a, &chars_of("skip")) {
        PromptAnswer::Skip
    } else {
        PromptAnswer::Ignore
    }
}

} // verus!
