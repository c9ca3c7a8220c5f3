//! Character-level helpers shared by the parsers and renderers.
use vstd::prelude::*;

verus! {

/// The Unicode `White_Space` property, which `char::is_whitespace` follows.
pub open spec fn is_white_space(c: char) -> bool {
    let v = c as u32;
    ||| 0x09 <= v <= 0x0d
    ||| v == 0x20
    ||| v == 0x85
    ||| v == 0xa0
    ||| v == 0x1680
    ||| 0x2000 <= v <= 0x200a
    ||| v == 0x2028
    ||| v == 0x2029
    ||| v == 0x202f
    ||| v == 0x205f
    ||| v == 0x3000
}

/// Whether `c` is Unicode white space.
pub fn white_space(c: char) -> (r: bool)
    ensures
        r == is_white_space(c),
{
    let v = c as u32;
    (0x09 <= v && v <= 0x0d) || v == 0x20 || v == 0x85 || v == 0xa0 || v == 0x1680 || (0x2000
        <= v && v <= 0x200a) || v == 0x2028 || v == 0x2029 || v == 0x202f || v == 0x205f || v
        == 0x3000
}

/// The views of a sequence of character vectors.
pub open spec fn views(v: Seq<Vec<char>>) -> Seq<Seq<char>> {
    v.map_values(|x: Vec<char>| x@)
}

/// The characters of a string slice.
pub fn chars_of(s: &str) -> (r: Vec<char>)
    ensures
        r@ == s@,
{
    let mut r: Vec<char> = Vec::new();
    for c in it: s.chars()
        invariant
            r@ == it.seq().take(it.index() as int),
    {
        r.push(c);
    }
    r
}

/// Builds a `String` from characters with `String::from_iter`; the string holds exactly
/// those characters.
#[verifier::external_body]
pub(crate) fn string_from(chars: &[char]) -> (r: String)
    ensures
        r@ == chars@,
{
    String::from_iter(chars)
}

/// A copy of `s[from..to]`.
pub fn slice_of(s: &[char], from: usize, to: usize) -> (r: Vec<char>)
    requires
        from <= to <= s@.len(),
    ensures
        r@ == s@.subrange(from as int, to as int),
{
    let mut r: Vec<char> = Vec::new();
    let mut i: usize = from;
    while i < to
        invariant
            from <= i <= to <= s@.len(),
            r@ == s@.subrange(from as int, i as int),
        decreases to - i,
    {
        r.push(s[i]);
        i = i + 1;
    }
    r
}

/// Appends `t` to `out`.
pub fn push_all(out: &mut Vec<char>, t: &[char])
    ensures
        final(out)@ == old(out)@ + t@,
{
    let mut i: usize = 0;
    while i < t.len()
        invariant
            0 <= i <= t@.len(),
            out@ == old(out)@ + t@.subrange(0, i as int),
        decreases t@.len() - i,
    {
        out.push(t[i]);
        i = i + 1;
    }
}

// ---------------------------------------------------------------- trimming

/// The first index at or after `i` whose character is not white space.
pub open spec fn skip_ws(s: Seq<char>, i: int) -> int
    decreases s.len() - i,
{
    if 0 <= i < s.len() && is_white_space(s[i]) {
        skip_ws(s, i + 1)
    } else {
        i
    }
}

/// The end of `s[..j]` once trailing white space is dropped.
pub open spec fn trim_end_at(s: Seq<char>, j: int) -> int
    decreases j,
{
    if 0 < j <= s.len() && is_white_space(s[j - 1]) {
        trim_end_at(s, j - 1)
    } else {
        j
    }
}

/// Skipping white space over `p + r` from inside `p` stops where it stops in `p`, or
/// carries on into `r` when the rest of `p` is white space.
pub proof fn lemma_skip_ws_prefix(p: Seq<char>, r: Seq<char>, i: int)
    requires
        0 <= i <= p.len(),
    ensures
        skip_ws(p + r, i) == if skip_ws(p, i) < p.len() {
            skip_ws(p, i)
        } else {
            p.len() + skip_ws(r, 0)
        },
    decreases p.len() + r.len() - i,
{
    lemma_skip_ws_bounds(p, i);
    if i < p.len() {
        assert((p + r)[i] == p[i]);
        if is_white_space(p[i]) {
            lemma_skip_ws_prefix(p, r, i + 1);
        }
    } else {
        lemma_skip_ws_shift(p, r, 0);
    }
}

proof fn lemma_skip_ws_shift(p: Seq<char>, r: Seq<char>, j: int)
    requires
        0 <= j <= r.len(),
    ensures
        skip_ws(p + r, p.len() + j) == p.len() + skip_ws(r, j),
    decreases r.len() - j,
{
    if j < r.len() {
        assert((p + r)[p.len() + j] == r[j]);
        lemma_skip_ws_shift(p, r, j + 1);
    }
}

/// A character that is not white space survives trimming at the end.
pub proof fn lemma_trim_end_keeps(s: Seq<char>, a: int, j: int)
    requires
        0 <= a < j <= s.len(),
        !is_white_space(s[a]),
    ensures
        trim_end_at(s, j) > a,
    decreases j,
{
    if is_white_space(s[j - 1]) {
        lemma_trim_end_keeps(s, a, j - 1);
    }
}

/// `str::trim`: `s` without leading and trailing white space.
pub open spec fn trim(s: Seq<char>) -> Seq<char> {
    let a = skip_ws(s, 0);
    let b = trim_end_at(s, s.len() as int);
    if a < b {
        s.subrange(a, b)
    } else {
        Seq::empty()
    }
}

pub proof fn lemma_skip_ws_bounds(s: Seq<char>, i: int)
    requires
        0 <= i <= s.len(),
    ensures
        i <= skip_ws(s, i) <= s.len(),
    decreases s.len() - i,
{
    if i < s.len() && is_white_space(s[i]) {
        lemma_skip_ws_bounds(s, i + 1);
    }
}

pub proof fn lemma_trim_end_bounds(s: Seq<char>, j: int)
    requires
        0 <= j <= s.len(),
    ensures
        0 <= trim_end_at(s, j) <= j,
    decreases j,
{
    if 0 < j && is_white_space(s[j - 1]) {
        lemma_trim_end_bounds(s, j - 1);
    }
}

/// `str::trim` on characters.
pub fn trim_chars(s: &[char]) -> (r: Vec<char>)
    ensures
        r@ == trim(s@),
{
    let mut a: usize = 0;
    while a < s.len() && white_space(s[a])
        invariant
            0 <= a <= s@.len(),
            skip_ws(s@, a as int) == skip_ws(s@, 0),
        decreases s@.len() - a,
    {
        a = a + 1;
    }
    let mut b: usize = s.len();
    while b > 0 && white_space(s[b - 1])
        invariant
            0 <= b <= s@.len(),
            trim_end_at(s@, b as int) == trim_end_at(s@, s@.len() as int),
        decreases b,
    {
        b = b - 1;
    }
    if a < b {
        slice_of(s, a, b)
    } else {
        Vec::new()
    }
}

// ---------------------------------------------------------------- splitting

/// The first index at or after `i` holding `c`, or the length.
pub open spec fn next_sep(s: Seq<char>, c: char, i: int) -> int
    decreases s.len() - i,
{
    if i < 0 || i >= s.len() {
        s.len() as int
    } else if s[i] == c {
        i
    } else {
        next_sep(s, c, i + 1)
    }
}

/// The pieces of `s[i..]` between occurrences of `c` (`str::split` with a char).
pub open spec fn split_from(s: Seq<char>, c: char, i: int) -> Seq<Seq<char>>
    decreases s.len() - i,
{
    let j = next_sep(s, c, i);
    if 0 <= i <= j < s.len() {
        seq![s.subrange(i, j)] + split_from(s, c, j + 1)
    } else if 0 <= i <= s.len() {
        seq![s.subrange(i, s.len() as int)]
    } else {
        Seq::empty()
    }
}

/// `s.split(c)`.
pub open spec fn split(s: Seq<char>, c: char) -> Seq<Seq<char>> {
    split_from(s, c, 0)
}

/// Text without the separator is a single piece.
pub proof fn lemma_split_without(s: Seq<char>, c: char)
    requires
        forall|k: int| 0 <= k < s.len() ==> s[k] != c,
    ensures
        split(s, c) == seq![s],
{
    lemma_next_sep(s, c, 0, s.len() as int);
    assert(s.subrange(0, s.len() as int) =~= s);
}

proof fn lemma_split_from_append(a: Seq<char>, c: char, b: Seq<char>, i: int)
    requires
        0 <= i <= a.len(),
        forall|k: int| 0 <= k < b.len() ==> b[k] != c,
    ensures
        split_from(a + seq![c] + b, c, i) == split_from(a, c, i).push(b),
    decreases a.len() - i,
{
    let s = a + seq![c] + b;
    let j = next_sep(a, c, i);
    lemma_next_sep_bounds(a, c, i);
    assert(s[a.len() as int] == c);
    assert forall|m: int| i <= m < j implies s[m] != c by {
        assert(s[m] == a[m]);
    }
    if j < a.len() {
        assert(s[j] == a[j]);
        lemma_next_sep(s, c, i, j);
        assert(s.subrange(i, j) =~= a.subrange(i, j));
        lemma_split_from_append(a, c, b, j + 1);
        assert((seq![a.subrange(i, j)] + split_from(a, c, j + 1)).push(b) =~= seq![
            a.subrange(i, j),
        ] + split_from(a, c, j + 1).push(b));
    } else {
        lemma_next_sep(s, c, i, a.len() as int);
        assert(s.subrange(i, a.len() as int) =~= a.subrange(i, a.len() as int));
        assert forall|m: int| a.len() + 1 <= m < s.len() implies s[m] != c by {
            assert(s[m] == b[m - a.len() - 1]);
        }
        lemma_next_sep(s, c, a.len() as int + 1, s.len() as int);
        assert(s.subrange(a.len() as int + 1, s.len() as int) =~= b);
        assert(split_from(s, c, a.len() as int + 1) == seq![b]);
    }
}

proof fn lemma_next_sep_shift(p: Seq<char>, b: Seq<char>, c: char, j: int)
    requires
        0 <= j <= b.len(),
    ensures
        next_sep(p + b, c, p.len() + j) == p.len() + next_sep(b, c, j),
    decreases b.len() - j,
{
    if j < b.len() {
        assert((p + b)[p.len() + j] == b[j]);
        lemma_next_sep_shift(p, b, c, j + 1);
    }
}

proof fn lemma_split_from_shift(p: Seq<char>, b: Seq<char>, c: char, j: int)
    requires
        0 <= j <= b.len(),
    ensures
        split_from(p + b, c, p.len() + j) == split_from(b, c, j),
    decreases b.len() - j,
{
    let s = p + b;
    lemma_next_sep_shift(p, b, c, j);
    lemma_next_sep_bounds(b, c, j);
    let k = next_sep(b, c, j);
    if k < b.len() {
        assert(s.subrange(p.len() + j, p.len() + k) =~= b.subrange(j, k));
        lemma_split_from_shift(p, b, c, k + 1);
    } else {
        assert(s.subrange(p.len() + j, s.len() as int) =~= b.subrange(j, b.len() as int));
    }
}

proof fn lemma_split_from_concat(a: Seq<char>, c: char, b: Seq<char>, i: int)
    requires
        0 <= i <= a.len(),
    ensures
        split_from(a + seq![c] + b, c, i) == split_from(a, c, i) + split(b, c),
    decreases a.len() - i,
{
    let s = a + seq![c] + b;
    let j = next_sep(a, c, i);
    lemma_next_sep_bounds(a, c, i);
    assert(s[a.len() as int] == c);
    assert forall|m: int| i <= m < j implies s[m] != c by {
        assert(s[m] == a[m]);
    }
    if j < a.len() {
        assert(s[j] == a[j]);
        lemma_next_sep(s, c, i, j);
        assert(s.subrange(i, j) =~= a.subrange(i, j));
        lemma_split_from_concat(a, c, b, j + 1);
        assert(seq![a.subrange(i, j)] + split_from(a, c, j + 1) + split(b, c) =~= seq![
            a.subrange(i, j),
        ] + (split_from(a, c, j + 1) + split(b, c)));
    } else {
        lemma_next_sep(s, c, i, a.len() as int);
        assert(s.subrange(i, a.len() as int) =~= a.subrange(i, a.len() as int));
        assert(s =~= (a + seq![c]) + b);
        lemma_split_from_shift(a + seq![c], b, c, 0);
    }
}

/// Splitting `a`, a separator and `b` gives the pieces of `a` followed by those of `b`.
pub proof fn lemma_split_concat(a: Seq<char>, c: char, b: Seq<char>)
    ensures
        split(a + seq![c] + b, c) == split(a, c) + split(b, c),
{
    lemma_split_from_concat(a, c, b, 0);
}

/// Splitting `a`, a separator and then `b`, which holds no separator, gives the pieces of
/// `a` followed by `b`.
pub proof fn lemma_split_append(a: Seq<char>, c: char, b: Seq<char>)
    requires
        forall|k: int| 0 <= k < b.len() ==> b[k] != c,
    ensures
        split(a + seq![c] + b, c) == split(a, c).push(b),
{
    lemma_split_from_append(a, c, b, 0);
}

pub proof fn lemma_next_sep(s: Seq<char>, c: char, i: int, k: int)
    requires
        0 <= i <= k <= s.len(),
        forall|m: int| i <= m < k ==> s[m] != c,
        k == s.len() || s[k] == c,
    ensures
        next_sep(s, c, i) == k,
    decreases k - i,
{
    if i < k {
        lemma_next_sep(s, c, i + 1, k);
    }
}

pub proof fn lemma_next_sep_bounds(s: Seq<char>, c: char, i: int)
    requires
        0 <= i <= s.len(),
    ensures
        i <= next_sep(s, c, i) <= s.len(),
        next_sep(s, c, i) < s.len() ==> s[next_sep(s, c, i)] == c,
        forall|m: int| i <= m < next_sep(s, c, i) ==> s[m] != c,
    decreases s.len() - i,
{
    if i < s.len() && s[i] != c {
        lemma_next_sep_bounds(s, c, i + 1);
    }
}

/// `s.split(c)` on characters.
pub fn split_chars(s: &[char], c: char) -> (r: Vec<Vec<char>>)
    ensures
        views(r@) == split(s@, c),
{
    let mut pieces: Vec<Vec<char>> = Vec::new();
    let mut cur: Vec<char> = Vec::new();
    let mut start: usize = 0;
    let mut i: usize = 0;
    while i < s.len()
        invariant
            0 <= start <= i <= s@.len(),
            cur@ == s@.subrange(start as int, i as int),
            forall|m: int| start <= m < i ==> s@[m] != c,
            views(pieces@) + split_from(s@, c, start as int) == split(s@, c),
        decreases s@.len() - i,
    {
        if s[i] == c {
            proof {
                lemma_next_sep(s@, c, start as int, i as int);
                assert(views(pieces@.push(cur)) == views(pieces@).push(cur@));
            }
            pieces.push(cur);
            cur = Vec::new();
            i = i + 1;
            start = i;
        } else {
            cur.push(s[i]);
            i = i + 1;
        }
    }
    proof {
        lemma_next_sep(s@, c, start as int, s@.len() as int);
        assert(views(pieces@.push(cur)) == views(pieces@).push(cur@));
    }
    pieces.push(cur);
    pieces
}

/// `str::split_once` with a char: the parts around the first `c`.
pub open spec fn split_once(s: Seq<char>, c: char) -> Option<(Seq<char>, Seq<char>)> {
    let j = next_sep(s, c, 0);
    if j < s.len() {
        Some((s.subrange(0, j), s.subrange(j + 1, s.len() as int)))
    } else {
        None
    }
}

/// `split_once` on characters.
pub fn split_once_chars(s: &[char], c: char) -> (r: Option<(Vec<char>, Vec<char>)>)
    ensures
        match r {
            Some((a, b)) => split_once(s@, c) == Some((a@, b@)),
            None => split_once(s@, c) is None,
        },
{
    let mut i: usize = 0;
    while i < s.len() && s[i] != c
        invariant
            0 <= i <= s@.len(),
            forall|m: int| 0 <= m < i ==> s@[m] != c,
        decreases s@.len() - i,
    {
        i = i + 1;
    }
    proof {
        lemma_next_sep(s@, c, 0, i as int);
    }
    if i < s.len() {
        Some((slice_of(s, 0, i), slice_of(s, i + 1, s.len())))
    } else {
        None
    }
}

/// `l` without one trailing carriage return.
pub open spec fn strip_cr(l: Seq<char>) -> Seq<char> {
    if l.len() > 0 && l.last() == '\r' {
        l.drop_last()
    } else {
        l
    }
}

/// The lines of `s[i..]` as `str::lines` yields them: split at `\n`, a `\r` before the
/// `\n` dropped, and no empty line after a final `\n`.
pub open spec fn lines_from(s: Seq<char>, i: int) -> Seq<Seq<char>>
    decreases s.len() - i,
{
    if i < 0 || i >= s.len() {
        Seq::empty()
    } else {
        let j = next_sep(s, '\n', i);
        if i <= j < s.len() {
            seq![strip_cr(s.subrange(i, j))] + lines_from(s, j + 1)
        } else {
            seq![s.subrange(i, s.len() as int)]
        }
    }
}

/// `s.lines()`.
pub open spec fn lines(s: Seq<char>) -> Seq<Seq<char>> {
    lines_from(s, 0)
}

/// `s.lines()` on characters.
pub fn lines_chars(s: &[char]) -> (r: Vec<Vec<char>>)
    ensures
        views(r@) == lines(s@),
{
    let n = s.len();
    let mut out: Vec<Vec<char>> = Vec::new();
    let mut start: usize = 0;
    while start < n
        invariant
            n == s@.len(),
            0 <= start <= n,
            views(out@) + lines_from(s@, start as int) == lines(s@),
        decreases n - start,
    {
        let mut j: usize = start;
        while j < n && s[j] != '\n'
            invariant
                n == s@.len(),
                start <= j <= n,
                forall|m: int| start <= m < j ==> s@[m] != '\n',
            decreases n - j,
        {
            j = j + 1;
        }
        proof {
            lemma_next_sep(s@, '\n', start as int, j as int);
        }
        let mut line = slice_of(s, start, j);
        if j < n && line.len() > 0 && line[line.len() - 1] == '\r' {
            line.pop();
        }
        proof {
            assert(views(out@.push(line)) == views(out@).push(line@));
        }
        out.push(line);
        if j == n {
            start = n;
        } else {
            start = j + 1;
        }
    }
    out
}

/// Character-by-character equality.
pub fn chars_eq(a: &[char], b: &[char]) -> (r: bool)
    ensures
        r == (a@ == b@),
{
    if a.len() != b.len() {
        return false;
    }
    let mut i: usize = 0;
    while i < a.len()
        invariant
            a@.len() == b@.len(),
            0 <= i <= a@.len(),
            forall|m: int| 0 <= m < i ==> a@[m] == b@[m],
        decreases a@.len() - i,
    {
        if a[i] != b[i] {
            return false;
        }
        i = i + 1;
    }
    assert(a@ =~= b@);
    true
}

// ---------------------------------------------------------------- words

/// The first index at or after `i` holding white space, or the length.
pub open spec fn next_ws(s: Seq<char>, i: int) -> int
    decreases s.len() - i,
{
    if 0 <= i < s.len() && !is_white_space(s[i]) {
        next_ws(s, i + 1)
    } else {
        i
    }
}

/// `s.split_whitespace().next()`: the first maximal run of non-white-space characters.
pub open spec fn first_word(s: Seq<char>) -> Option<Seq<char>> {
    let a = skip_ws(s, 0);
    if a < s.len() {
        Some(s.subrange(a, next_ws(s, a)))
    } else {
        None
    }
}

pub proof fn lemma_next_ws_bounds(s: Seq<char>, i: int)
    requires
        0 <= i <= s.len(),
    ensures
        i <= next_ws(s, i) <= s.len(),
    decreases s.len() - i,
{
    if i < s.len() && !is_white_space(s[i]) {
        lemma_next_ws_bounds(s, i + 1);
    }
}

/// `split_whitespace().next()` on characters.
pub fn first_word_chars(s: &[char]) -> (r: Option<Vec<char>>)
    ensures
        match r {
            Some(w) => first_word(s@) == Some(w@),
            None => first_word(s@) is None,
        },
{
    let mut a: usize = 0;
    while a < s.len() && white_space(s[a])
        invariant
            0 <= a <= s@.len(),
            skip_ws(s@, a as int) == skip_ws(s@, 0),
        decreases s@.len() - a,
    {
        a = a + 1;
    }
    if a == s.len() {
        return None;
    }
    let mut b: usize = a;
    while b < s.len() && !white_space(s[b])
        invariant
            a <= b <= s@.len(),
            next_ws(s@, b as int) == next_ws(s@, a as int),
        decreases s@.len() - b,
    {
        b = b + 1;
    }
    Some(slice_of(s, a, b))
}

// ---------------------------------------------------------------- ASCII case

/// `char::to_ascii_lowercase`.
pub open spec fn lower(c: char) -> char {
    if 'A' <= c <= 'Z' {
        ((c as u32) + 32) as char
    } else {
        c
    }
}

/// `str::to_ascii_lowercase`.
pub open spec fn lower_all(s: Seq<char>) -> Seq<char> {
    s.map_values(|c: char| lower(c))
}

pub fn lower_char(c: char) -> (r: char)
    ensures
        r == lower(c),
{
    if 'A' <= c && c <= 'Z' {
        let v = ((c as u32) + 32) as u8;
        v as char
    } else {
        c
    }
}

pub fn lower_chars(s: &[char]) -> (r: Vec<char>)
    ensures
        r@ == lower_all(s@),
{
    let mut r: Vec<char> = Vec::new();
    let mut i: usize = 0;
    while i < s.len()
        invariant
            0 <= i <= s@.len(),
            r@ == lower_all(s@.subrange(0, i as int)),
        decreases s@.len() - i,
    {
        let c = lower_char(s[i]);
        proof {
            assert(lower_all(s@.subrange(0, i + 1)) == lower_all(s@.subrange(0, i as int)).push(
                lower(s@[i as int]),
            ));
        }
        r.push(c);
        i = i + 1;
    }
    r
}

/// `p` is a prefix of `s`.
pub open spec fn starts_with(s: Seq<char>, p: Seq<char>) -> bool {
    p.len() <= s.len() && s.subrange(0, p.len() as int) == p
}

/// `p` occurs in `s`.
pub open spec fn contains(s: Seq<char>, p: Seq<char>) -> bool {
    exists|i: int| 0 <= i <= s.len() - p.len() && #[trigger] s.subrange(i, i + p.len()) == p
}

pub fn starts_with_chars(s: &[char], p: &[char]) -> (r: bool)
    ensures
        r == starts_with(s@, p@),
{
    if p.len() > s.len() {
        return false;
    }
    let mut i: usize = 0;
    while i < p.len()
        invariant
            p@.len() <= s@.len(),
            0 <= i <= p@.len(),
            forall|m: int| 0 <= m < i ==> s@[m] == p@[m],
        decreases p@.len() - i,
    {
        if s[i] != p[i] {
            assert(s@.subrange(0, p@.len() as int)[i as int] != p@[i as int]);
            return false;
        }
        i = i + 1;
    }
    assert(s@.subrange(0, p@.len() as int) =~= p@);
    true
}

/// Whether `p` occurs in `s` at `at`.
fn matches_at(s: &[char], p: &[char], at: usize) -> (r: bool)
    requires
        at + p@.len() <= s@.len(),
        s@.len() <= usize::MAX,
    ensures
        r == (s@.subrange(at as int, at + p@.len()) == p@),
{
    let mut i: usize = 0;
    while i < p.len()
        invariant
            at + p@.len() <= s@.len() <= usize::MAX,
            0 <= i <= p@.len(),
            forall|m: int| 0 <= m < i ==> s@[at + m] == p@[m],
        decreases p@.len() - i,
    {
        if s[at + i] != p[i] {
            assert(s@.subrange(at as int, at + p@.len())[i as int] != p@[i as int]);
            return false;
        }
        i = i + 1;
    }
    assert(s@.subrange(at as int, at + p@.len()) =~= p@);
    true
}

pub fn contains_chars(s: &[char], p: &[char]) -> (r: bool)
    ensures
        r == contains(s@, p@),
{
    let n = s.len();
    if p.len() > n {
        return false;
    }
    let last = n - p.len();
    let mut i: usize = 0;
    loop
        invariant
            n == s@.len(),
            p@.len() <= s@.len(),
            last == s@.len() - p@.len(),
            0 <= i <= last,
            forall|m: int| 0 <= m < i ==> #[trigger] s@.subrange(m, m + p@.len()) != p@,
        decreases last - i,
    {
        if matches_at(s, p, i) {
            return true;
        }
        if i == last {
            return false;
        }
        i = i + 1;
    }
}

// ---------------------------------------------------------------- numbers

/// The decimal digit for `d < 10`.
pub open spec fn digit_char(d: nat) -> char {
    ((d + 48) as u32) as char
}

/// The decimal text of `n`, without leading zeros.
pub open spec fn decimal(n: nat) -> Seq<char>
    decreases n,
{
    if n < 10 {
        seq![digit_char(n)]
    } else {
        decimal(n / 10).push(digit_char(n % 10))
    }
}

/// The decimal text of `n` is a run of digits worth `n`, with no leading zero.
pub proof fn lemma_decimal_reads_back(n: nat)
    ensures
        decimal(n).len() >= 1,
        forall|k: int| 0 <= k < decimal(n).len() ==> is_digit(#[trigger] decimal(n)[k]),
        digits_value(decimal(n)) == n,
        n >= 10 ==> decimal(n)[0] != '0',
        n < 10 ==> decimal(n).len() == 1,
        n < 100 ==> decimal(n).len() <= 2,
        n < 1000 ==> decimal(n).len() <= 3,
    decreases n,
{
    let d = digit_char(n % 10);
    assert((d as u32) == n % 10 + 48);
    if n < 10 {
        let s = decimal(n);
        assert(s.drop_last() =~= Seq::<char>::empty());
        assert(digits_value(s) == digits_value(s.drop_last()) * 10 + ((s.last() as u32) - 48) as nat);
    } else {
        lemma_decimal_reads_back(n / 10);
        let s = decimal(n);
        assert(s.drop_last() =~= decimal(n / 10));
        assert(s.last() == d);
        assert(digits_value(s) == digits_value(s.drop_last()) * 10 + ((s.last() as u32) - 48) as nat);
        assert(digits_value(s) == (n / 10) * 10 + n % 10);
        assert forall|k: int| 0 <= k < s.len() implies is_digit(#[trigger] s[k]) by {
            if k < decimal(n / 10).len() {
                assert(s[k] == decimal(n / 10)[k]);
            }
        }
        assert(s[0] == decimal(n / 10)[0]);
        if n / 10 < 10 {
            assert(decimal(n / 10)[0] == digit_char(n / 10));
            assert((digit_char(n / 10) as u32) == n / 10 + 48);
        }
    }
}

fn digit(d: u64) -> (r: char)
    requires
        d < 10,
    ensures
        r == digit_char(d as nat),
{
    if d == 0 { '0' }
    else if d == 1 { '1' }
    else if d == 2 { '2' }
    else if d == 3 { '3' }
    else if d == 4 { '4' }
    else if d == 5 { '5' }
    else if d == 6 { '6' }
    else if d == 7 { '7' }
    else if d == 8 { '8' }
    else { '9' }
}

/// Appends the decimal text of `n`.
pub fn push_decimal(out: &mut Vec<char>, n: u64)
    ensures
        final(out)@ == old(out)@ + decimal(n as nat),
    decreases n,
{
    if n >= 10 {
        push_decimal(out, n / 10);
    }
    out.push(digit(n % 10));
    proof {
        if n >= 10 {
            assert(old(out)@ + decimal(n as nat) =~= old(out)@ + decimal((n / 10) as nat) + seq![
                digit_char((n % 10) as nat),
            ]);
        } else {
            assert(old(out)@ + decimal(n as nat) =~= old(out)@ + seq![digit_char(n as nat)]);
        }
    }
}

/// Whether `c` is an ASCII decimal digit.
pub open spec fn is_digit(c: char) -> bool {
    '0' <= c <= '9'
}

/// The value of a run of decimal digits.
pub open spec fn digits_value(s: Seq<char>) -> nat
    decreases s.len(),
{
    if s.len() == 0 {
        0
    } else {
        digits_value(s.drop_last()) * 10 + ((s.last() as u32) - 48) as nat
    }
}

/// The digits of an unsigned integer literal: an optional leading `+` is dropped.
pub open spec fn unsigned_body(s: Seq<char>) -> Seq<char> {
    if s.len() > 0 && s[0] == '+' {
        s.drop_first()
    } else {
        s
    }
}

/// `FromStr` for an unsigned integer type whose largest value is `max`.
pub open spec fn parse_unsigned(s: Seq<char>, max: nat) -> Option<nat> {
    let body = unsigned_body(s);
    if body.len() > 0 && (forall|i: int| 0 <= i < body.len() ==> is_digit(#[trigger] body[i]))
        && digits_value(body) <= max {
        Some(digits_value(body))
    } else {
        None
    }
}

proof fn lemma_digits_value_step(s: Seq<char>, i: int)
    requires
        0 <= i < s.len(),
    ensures
        digits_value(s.subrange(0, i + 1)) == digits_value(s.subrange(0, i)) * 10 + ((s[i]
            as u32) - 48) as nat,
{
    assert(s.subrange(0, i + 1).drop_last() =~= s.subrange(0, i));
}

/// Parses an unsigned decimal integer no greater than `max`, as `u64::from_str` and its
/// narrower kin do.
pub fn parse_unsigned_chars(s: &[char], max: u64) -> (r: Option<u64>)
    ensures
        match r {
            Some(v) => parse_unsigned(s@, max as nat) == Some(v as nat),
            None => parse_unsigned(s@, max as nat) is None,
        },
{
    let start: usize = if s.len() > 0 && s[0] == '+' { 1 } else { 0 };
    let ghost body = unsigned_body(s@);
    assert(body =~= s@.subrange(start as int, s@.len() as int));
    if start == s.len() {
        assert(body.len() == 0);
        return None;
    }
    // `acc` is the value so far, clamped to `max + 1`.
    let cap: u128 = max as u128 + 1;
    let mut acc: u128 = 0;
    let mut i: usize = start;
    while i < s.len()
        invariant
            start <= i <= s@.len(),
            body == unsigned_body(s@),
            body =~= s@.subrange(start as int, s@.len() as int),
            cap == max + 1,
            forall|m: int| 0 <= m < i - start ==> is_digit(#[trigger] body[m]),
            acc == if digits_value(body.subrange(0, i - start)) < cap {
                digits_value(body.subrange(0, i - start))
            } else {
                cap as nat
            },
        decreases s@.len() - i,
    {
        let c = s[i];
        if !('0' <= c && c <= '9') {
            assert(!is_digit(body[i - start]));
            assert(!(forall|m: int| 0 <= m < body.len() ==> is_digit(#[trigger] body[m])));
            return None;
        }
        let d = (c as u32 - 48) as u128;
        proof {
            lemma_digits_value_step(body, i - start);
            let v = digits_value(body.subrange(0, i - start));
            assert(v * 10 >= v) by (nonlinear_arith)
                requires
                    v >= 0,
            ;
            if v >= cap {
                assert(v * 10 + d >= cap) by (nonlinear_arith)
                    requires
                        v >= cap,
                        d >= 0,
                ;
            }
        }
        let next = acc * 10 + d;
        acc = if next < cap { next } else { cap };
        proof {
            let v = digits_value(body.subrange(0, i - start));
            if v >= cap {
                assert(cap * 10 + d >= cap) by (nonlinear_arith)
                    requires
                        cap >= 1,
                        d >= 0,
                ;
            }
        }
        i = i + 1;
    }
    assert(body.subrange(0, body.len() as int) =~= body);
    if acc <= max as u128 {
        Some(acc as u64)
    } else {
        None
    }
}

// ---------------------------------------------------------------- padding

/// `n` spaces.
pub open spec fn spaces(n: nat) -> Seq<char> {
    Seq::new(n, |i: int| ' ')
}

/// `format!("{:<w$}", s)`: `s` padded with spaces on the right to `w` characters.
pub open spec fn pad_right(s: Seq<char>, w: nat) -> Seq<char> {
    if s.len() < w {
        s + spaces((w - s.len()) as nat)
    } else {
        s
    }
}

/// `format!("{:>w$}", s)`: `s` padded with spaces on the left to `w` characters.
pub open spec fn pad_left(s: Seq<char>, w: nat) -> Seq<char> {
    if s.len() < w {
        spaces((w - s.len()) as nat) + s
    } else {
        s
    }
}

fn push_spaces(out: &mut Vec<char>, n: usize)
    ensures
        final(out)@ == old(out)@ + spaces(n as nat),
{
    let mut i: usize = 0;
    while i < n
        invariant
            0 <= i <= n,
            out@ == old(out)@ + spaces(i as nat),
        decreases n - i,
    {
        out.push(' ');
        i = i + 1;
        assert(old(out)@ + spaces(i as nat) =~= old(out)@ + spaces((i - 1) as nat) + seq![' ']);
    }
}

/// Appends `s` padded on the right to `w` characters.
pub fn push_pad_right(out: &mut Vec<char>, s: &[char], w: usize)
    ensures
        final(out)@ == old(out)@ + pad_right(s@, w as nat),
{
    push_all(out, s);
    if s.len() < w {
        push_spaces(out, w - s.len());
    }
}

/// Appends `s` padded on the left to `w` characters.
pub fn push_pad_left(out: &mut Vec<char>, s: &[char], w: usize)
    ensures
        final(out)@ == old(out)@ + pad_left(s@, w as nat),
{
    if s.len() < w {
        push_spaces(out, w - s.len());
    }
    push_all(out, s);
    assert(old(out)@ + pad_left(s@, w as nat) =~= if s@.len() < w {
        old(out)@ + spaces((w - s@.len()) as nat) + s@
    } else {
        old(out)@ + s@
    });
}

// ---------------------------------------------------------------- order

/// `a < b` for strings, from position `i` on: the order of `str`, which is that of the
/// characters' code points.
pub open spec fn text_less(a: Seq<char>, b: Seq<char>, i: int) -> bool
    decreases (if a.len() > b.len() {
        a.len()
    } else {
        b.len()
    }) - i,
{
    if i < 0 || i >= b.len() {
        false
    } else if i >= a.len() {
        true
    } else if (a[i] as int) < (b[i] as int) {
        true
    } else if (a[i] as int) > (b[i] as int) {
        false
    } else {
        text_less(a, b, i + 1)
    }
}

pub proof fn lemma_text_less_asym(a: Seq<char>, b: Seq<char>, i: int)
    requires
        i >= 0,
    ensures
        !(text_less(a, b, i) && text_less(b, a, i)),
        !text_less(a, a, i),
    decreases (if a.len() > b.len() {
        a.len()
    } else {
        b.len()
    }) - i,
{
    if i < a.len() && i < b.len() {
        lemma_text_less_asym(a, b, i + 1);
    }
    if i < a.len() {
        lemma_text_less_asym(a, a, i + 1);
    }
}

/// Two different texts are ordered one way or the other.
pub proof fn lemma_text_less_total(a: Seq<char>, b: Seq<char>, i: int)
    requires
        0 <= i,
        i <= a.len() || i <= b.len(),
        a.subrange(if i <= a.len() { i } else { a.len() as int }, a.len() as int) != b.subrange(
            if i <= b.len() { i } else { b.len() as int },
            b.len() as int,
        ),
    ensures
        text_less(a, b, i) || text_less(b, a, i),
    decreases (if a.len() > b.len() {
        a.len()
    } else {
        b.len()
    }) - i,
{
    if i >= a.len() && i >= b.len() {
        assert(a.subrange(a.len() as int, a.len() as int) =~= b.subrange(
            b.len() as int,
            b.len() as int,
        ));
    } else if i < a.len() && i < b.len() && a[i] == b[i] {
        if a.subrange(i + 1, a.len() as int) == b.subrange(i + 1, b.len() as int) {
            assert(a.subrange(i, a.len() as int) =~= seq![a[i]] + a.subrange(i + 1, a.len() as int));
            assert(b.subrange(i, b.len() as int) =~= seq![b[i]] + b.subrange(i + 1, b.len() as int));
        }
        lemma_text_less_total(a, b, i + 1);
    } else if i < a.len() && i < b.len() {
        assert((a[i] as int) != (b[i] as int));
    }
}

/// The order of texts is transitive.
pub proof fn lemma_text_less_trans(a: Seq<char>, b: Seq<char>, c: Seq<char>, i: int)
    requires
        0 <= i,
        text_less(a, b, i),
        text_less(b, c, i),
    ensures
        text_less(a, c, i),
    decreases (if b.len() > c.len() {
        b.len()
    } else {
        c.len()
    }) - i,
{
    if i < a.len() && i < b.len() && i < c.len() && a[i] == b[i] && b[i] == c[i] {
        lemma_text_less_trans(a, b, c, i + 1);
    }
}

/// The code point of `c`.
pub fn code_point(c: char) -> (r: u32)
    ensures
        r as int == c as int,
{
    c as u32
}

/// Whether `a` sorts before `b`.
pub fn less_chars(a: &[char], b: &[char]) -> (r: bool)
    ensures
        r == text_less(a@, b@, 0),
{
    let mut i: usize = 0;
    loop
        invariant
            0 <= i <= a@.len(),
            i <= b@.len(),
            text_less(a@, b@, 0) == text_less(a@, b@, i as int),
        decreases a@.len() - i,
    {
        if i >= b.len() {
            return false;
        }
        if i >= a.len() {
            return true;
        }
        if code_point(a[i]) < code_point(b[i]) {
            return true;
        }
        if code_point(a[i]) > code_point(b[i]) {
            return false;
        }
        i = i + 1;
    }
}

} // verus!
