//! Byte strings: what the checks read and what they write.
//!
//! Every file and every message here is a sequence of bytes, UTF-8 where the
//! rule reading it says so. The operations are the handful the rules are
//! written with: a prefix, a substring, a line, a trim, a count and a number
//! written in decimal. Each has a definition over `Seq<u8>` and a function
//! that computes it.

use vstd::prelude::*;
use vstd::string::StringSliceAdditionalSpecFns;

verus! {

/// The bytes a literal is spelled with.
pub open spec fn lit(s: &str) -> Seq<u8> {
    s.spec_bytes()
}

/// Appends `more` to `out`.
pub fn push_all(out: &mut Vec<u8>, more: &[u8])
    ensures
        final(out)@ == old(out)@ + more@,
{
    let ghost start = out@;
    let mut i: usize = 0;
    while i < more.len()
        invariant
            0 <= i <= more@.len(),
            out@ == start + more@.take(i as int),
        decreases more@.len() - i,
    {
        out.push(more[i]);
        i = i + 1;
        assert(more@.take(i as int) == more@.take(i - 1).push(more@[i - 1]));
    }
    assert(more@.take(more@.len() as int) == more@);
}

/// Appends the bytes of a literal to `out`.
pub fn push_str(out: &mut Vec<u8>, more: &str)
    ensures
        final(out)@ == old(out)@ + lit(more),
{
    push_all(out, more.as_bytes());
}

/// A copy of the bytes of `s` from `from` up to `to`.
pub fn copy_range(s: &[u8], from: usize, to: usize) -> (r: Vec<u8>)
    requires
        from <= to <= s@.len(),
    ensures
        r@ == s@.subrange(from as int, to as int),
{
    let mut r: Vec<u8> = Vec::new();
    let mut i = from;
    while i < to
        invariant
            from <= i <= to <= s@.len(),
            r@ == s@.subrange(from as int, i as int),
        decreases to - i,
    {
        r.push(s[i]);
        i = i + 1;
        assert(s@.subrange(from as int, i as int) == s@.subrange(from as int, i - 1).push(
            s@[i - 1],
        ));
    }
    r
}

/// A copy of the bytes of `s`.
pub fn copy_all(s: &[u8]) -> (r: Vec<u8>)
    ensures
        r@ == s@,
{
    let r = copy_range(s, 0, s.len());
    assert(s@.subrange(0, s@.len() as int) =~= s@);
    r
}

/// Whether two byte strings are the same.
pub fn same(a: &[u8], b: &[u8]) -> (r: bool)
    ensures
        r == (a@ == b@),
{
    if a.len() != b.len() {
        return false;
    }
    let mut i: usize = 0;
    while i < a.len()
        invariant
            a@.len() == b@.len(),
            0 <= i <= a@.len(),
            forall|j: int| 0 <= j < i ==> a@[j] == b@[j],
        decreases a@.len() - i,
    {
        if a[i] != b[i] {
            return false;
        }
        i = i + 1;
    }
    assert(a@ =~= b@);
    true
}

// ---------------------------------------------------------------------------
// A number written in decimal.
/// The decimal spelling of `n`, most significant digit first, with no sign
/// and no leading zero.
pub open spec fn decimal(n: nat) -> Seq<u8>
    decreases n,
{
    if n < 10 {
        seq![(48 + n) as u8]
    } else {
        decimal(n / 10).push((48 + n % 10) as u8)
    }
}

/// Appends the decimal spelling of `n` to `out`.
pub fn push_decimal(out: &mut Vec<u8>, n: usize)
    ensures
        final(out)@ == old(out)@ + decimal(n as nat),
    decreases n,
{
    if n >= 10 {
        push_decimal(out, n / 10);
    }
    let digit: u8 = (48 + n % 10) as u8;
    out.push(digit);
}

// ---------------------------------------------------------------------------
// Prefixes, suffixes and substrings.
/// Whether `p` occurs in `s` starting at byte `i`.
pub open spec fn occurs_at(s: Seq<u8>, p: Seq<u8>, i: int) -> bool {
    0 <= i && i + p.len() <= s.len() && s.subrange(i, i + p.len()) == p
}

/// Whether `s` opens with `p`.
pub open spec fn starts_with(s: Seq<u8>, p: Seq<u8>) -> bool {
    occurs_at(s, p, 0)
}

/// Whether `s` closes with `p`.
pub open spec fn ends_with(s: Seq<u8>, p: Seq<u8>) -> bool {
    occurs_at(s, p, s.len() - p.len())
}

/// Whether `p` occurs anywhere in `s`. An empty `p` occurs in everything.
pub open spec fn contains(s: Seq<u8>, p: Seq<u8>) -> bool {
    exists|i: int| occurs_at(s, p, i)
}

/// Whether `p` occurs in `s` at byte `at`.
pub fn occurs_at_exec(s: &[u8], p: &[u8], at: usize) -> (r: bool)
    ensures
        r == occurs_at(s@, p@, at as int),
{
    if at > s.len() || p.len() > s.len() - at {
        return false;
    }
    let n = s.len();
    let mut i: usize = 0;
    while i < p.len()
        invariant
            n == s@.len(),
            at + p@.len() <= s@.len(),
            0 <= i <= p@.len(),
            forall|j: int| 0 <= j < i ==> s@[at + j] == p@[j],
        decreases p@.len() - i,
    {
        assert(at + i < s@.len());
        if s[at + i] != p[i] {
            assert(s@.subrange(at as int, at + p@.len())[i as int] != p@[i as int]);
            return false;
        }
        i = i + 1;
    }
    assert(s@.subrange(at as int, at + p@.len()) =~= p@);
    true
}

/// Whether the bytes of `s` from `at` on open with `p`.
pub fn starts_with_at(s: &[u8], at: usize, p: &[u8]) -> (r: bool)
    requires
        at <= s@.len(),
    ensures
        r == starts_with(s@.skip(at as int), p@),
{
    let r = occurs_at_exec(s, p, at);
    assert(r ==> s@.skip(at as int).subrange(0, p@.len() as int) =~= s@.subrange(
        at as int,
        at + p@.len(),
    ));
    assert(starts_with(s@.skip(at as int), p@) ==> s@.skip(at as int).subrange(
        0,
        p@.len() as int,
    ) =~= s@.subrange(at as int, at + p@.len()));
    r
}

/// Whether `s` opens with `p`.
pub fn starts_with_exec(s: &[u8], p: &[u8]) -> (r: bool)
    ensures
        r == starts_with(s@, p@),
{
    occurs_at_exec(s, p, 0)
}

/// Whether `s` closes with `p`.
pub fn ends_with_exec(s: &[u8], p: &[u8]) -> (r: bool)
    ensures
        r == ends_with(s@, p@),
{
    if p.len() > s.len() {
        return false;
    }
    occurs_at_exec(s, p, s.len() - p.len())
}

/// Whether `p` occurs anywhere in `s`.
pub fn contains_exec(s: &[u8], p: &[u8]) -> (r: bool)
    ensures
        r == contains(s@, p@),
{
    if p.len() > s.len() {
        assert forall|i: int| !occurs_at(s@, p@, i) by {}
        return false;
    }
    let last = s.len() - p.len();
    let mut at: usize = 0;
    loop
        invariant
            p@.len() <= s@.len(),
            last == s@.len() - p@.len(),
            0 <= at <= last,
            forall|i: int| 0 <= i < at ==> !occurs_at(s@, p@, i),
        decreases last - at,
    {
        if occurs_at_exec(s, p, at) {
            return true;
        }
        if at == last {
            assert forall|i: int| !occurs_at(s@, p@, i) by {}
            return false;
        }
        at = at + 1;
    }
}

// ---------------------------------------------------------------------------
// Counting a byte.
/// How many times `b` occurs in `s`.
pub open spec fn count_byte(s: Seq<u8>, b: u8) -> nat
    decreases s.len(),
{
    if s.len() == 0 {
        0
    } else {
        count_byte(s.drop_last(), b) + if s.last() == b {
            1nat
        } else {
            0nat
        }
    }
}

/// How many times `b` occurs among the first `upto` bytes of `s`.
pub fn count_byte_exec(s: &[u8], upto: usize, b: u8) -> (r: usize)
    requires
        upto <= s@.len(),
    ensures
        r == count_byte(s@.take(upto as int), b),
        r <= upto,
{
    let mut c: usize = 0;
    let mut i: usize = 0;
    while i < upto
        invariant
            0 <= i <= upto <= s@.len(),
            c == count_byte(s@.take(i as int), b),
            c <= i,
        decreases upto - i,
    {
        assert(s@.take(i + 1).drop_last() == s@.take(i as int));
        if s[i] == b {
            c = c + 1;
        }
        i = i + 1;
    }
    c
}

/// Whether `b` occurs anywhere in `s`.
pub open spec fn has_byte(s: Seq<u8>, b: u8) -> bool {
    exists|i: int| 0 <= i < s.len() && s[i] == b
}

/// Whether `b` occurs anywhere in `s`.
pub fn has_byte_exec(s: &[u8], b: u8) -> (r: bool)
    ensures
        r == has_byte(s@, b),
{
    let mut i: usize = 0;
    while i < s.len()
        invariant
            0 <= i <= s@.len(),
            forall|j: int| 0 <= j < i ==> s@[j] != b,
        decreases s@.len() - i,
    {
        if s[i] == b {
            return true;
        }
        i = i + 1;
    }
    false
}

// ---------------------------------------------------------------------------
// Lower case, in ASCII only.
/// A byte with an ASCII capital letter lowered and every other byte kept.
pub open spec fn lower_byte(b: u8) -> u8 {
    if 65 <= b <= 90 {
        (b + 32) as u8
    } else {
        b
    }
}

/// `s` with its ASCII capitals lowered, which is what `to_ascii_lowercase` does.
pub open spec fn lower(s: Seq<u8>) -> Seq<u8> {
    Seq::new(s.len(), |i: int| lower_byte(s[i]))
}

/// `s` with its ASCII capitals lowered.
pub fn lower_exec(s: &[u8]) -> (r: Vec<u8>)
    ensures
        r@ == lower(s@),
{
    let mut r: Vec<u8> = Vec::new();
    let mut i: usize = 0;
    while i < s.len()
        invariant
            0 <= i <= s@.len(),
            r@.len() == i,
            forall|j: int| 0 <= j < i ==> r@[j] == lower_byte(s@[j]),
        decreases s@.len() - i,
    {
        let b = s[i];
        let l: u8 = if 65 <= b && b <= 90 {
            b + 32
        } else {
            b
        };
        r.push(l);
        i = i + 1;
    }
    assert(r@ =~= lower(s@));
    r
}

// ---------------------------------------------------------------------------
// Whitespace, as Rust's `trim` family reads it.
/// Whether three bytes spell a whitespace character above U+07FF: U+1680,
/// U+2000 to U+200A, U+2028, U+2029, U+202F, U+205F or U+3000.
pub open spec fn is_wide_space(a: u8, b: u8, c: u8) -> bool {
    ||| (a == 0xE1 && b == 0x9A && c == 0x80)
    ||| (a == 0xE2 && b == 0x80 && ((0x80 <= c && c <= 0x8A) || c == 0xA8 || c == 0xA9 || c
        == 0xAF))
    ||| (a == 0xE2 && b == 0x81 && c == 0x9F)
    ||| (a == 0xE3 && b == 0x80 && c == 0x80)
}

/// Whether a byte is ASCII whitespace: tab, line feed, vertical tab, form
/// feed, carriage return or space.
pub open spec fn is_ascii_space(b: u8) -> bool {
    (9 <= b && b <= 13) || b == 32
}

/// The length of the whitespace character `s` opens with, or 0 where it opens
/// with none. The characters are those with the Unicode White_Space property,
/// by their UTF-8 spelling.
pub open spec fn space_at_start(s: Seq<u8>) -> nat {
    if s.len() >= 1 && is_ascii_space(s[0]) {
        1
    } else if s.len() >= 2 && s[0] == 0xC2 && (s[1] == 0x85 || s[1] == 0xA0) {
        2
    } else if s.len() >= 3 && is_wide_space(s[0], s[1], s[2]) {
        3
    } else {
        0
    }
}

/// The length of the whitespace character `s` closes with, or 0.
pub open spec fn space_at_end(s: Seq<u8>) -> nat {
    let n = s.len() as int;
    if n >= 1 && is_ascii_space(s[n - 1]) {
        1
    } else if n >= 2 && s[n - 2] == 0xC2 && (s[n - 1] == 0x85 || s[n - 1] == 0xA0) {
        2
    } else if n >= 3 && is_wide_space(s[n - 3], s[n - 2], s[n - 1]) {
        3
    } else {
        0
    }
}

/// `s` without the whitespace it opens with.
pub open spec fn trim_start(s: Seq<u8>) -> Seq<u8>
    decreases s.len(),
{
    if space_at_start(s) == 0 {
        s
    } else {
        trim_start(s.skip(space_at_start(s) as int))
    }
}

/// `s` without the whitespace it closes with.
pub open spec fn trim_end(s: Seq<u8>) -> Seq<u8>
    decreases s.len(),
{
    if space_at_end(s) == 0 {
        s
    } else {
        trim_end(s.take(s.len() - space_at_end(s)))
    }
}

/// `s` without the whitespace at either end.
pub open spec fn trim(s: Seq<u8>) -> Seq<u8> {
    trim_end(trim_start(s))
}

fn space_at_start_exec(s: &[u8], at: usize) -> (r: usize)
    requires
        at <= s@.len(),
    ensures
        r == space_at_start(s@.skip(at as int)),
{
    let n = s.len() - at;
    if n >= 1 && ((9 <= s[at] && s[at] <= 13) || s[at] == 32) {
        1
    } else if n >= 2 && s[at] == 0xC2 && (s[at + 1] == 0x85 || s[at + 1] == 0xA0) {
        2
    } else if n >= 3 && wide_space(s[at], s[at + 1], s[at + 2]) {
        3
    } else {
        0
    }
}

fn wide_space(a: u8, b: u8, c: u8) -> (r: bool)
    ensures
        r == is_wide_space(a, b, c),
{
    (a == 0xE1 && b == 0x9A && c == 0x80) || (a == 0xE2 && b == 0x80 && ((0x80 <= c && c <= 0x8A)
        || c == 0xA8 || c == 0xA9 || c == 0xAF)) || (a == 0xE2 && b == 0x81 && c == 0x9F) || (a
        == 0xE3 && b == 0x80 && c == 0x80)
}

fn space_at_end_exec(s: &[u8], from: usize, to: usize) -> (r: usize)
    requires
        from <= to <= s@.len(),
    ensures
        r == space_at_end(s@.subrange(from as int, to as int)),
        r <= to - from,
{
    let n = to - from;
    if n >= 1 && ((9 <= s[to - 1] && s[to - 1] <= 13) || s[to - 1] == 32) {
        1
    } else if n >= 2 && s[to - 2] == 0xC2 && (s[to - 1] == 0x85 || s[to - 1] == 0xA0) {
        2
    } else if n >= 3 && wide_space(s[to - 3], s[to - 2], s[to - 1]) {
        3
    } else {
        0
    }
}

/// Where the part of `s[from..to]` that `trim` keeps begins and ends.
pub fn trim_range(s: &[u8], from: usize, to: usize) -> (r: (usize, usize))
    requires
        from <= to <= s@.len(),
    ensures
        from <= r.0 <= r.1 <= to,
        s@.subrange(r.0 as int, r.1 as int) == trim(s@.subrange(from as int, to as int)),
{
    let (a, _) = trim_start_range(s, from, to);
    let b = trim_end_at(s, a, to);
    (a, b)
}

/// Where the part of `s[from..to]` that `trim_start` keeps begins.
pub fn trim_start_range(s: &[u8], from: usize, to: usize) -> (r: (usize, usize))
    requires
        from <= to <= s@.len(),
    ensures
        from <= r.0 <= r.1 == to,
        s@.subrange(r.0 as int, to as int) == trim_start(s@.subrange(from as int, to as int)),
{
    let ghost whole = s@.subrange(from as int, to as int);
    let mut a = from;
    loop
        invariant
            from <= a <= to <= s@.len(),
            whole == s@.subrange(from as int, to as int),
            trim_start(whole) == trim_start(s@.subrange(a as int, to as int)),
        decreases to - a,
    {
        let k = space_at_start_exec(s, a);
        let ghost here = s@.subrange(a as int, to as int);
        assert(here.len() >= 1 ==> here[0] == s@.skip(a as int)[0]);
        assert(here.len() >= 2 ==> here[1] == s@.skip(a as int)[1]);
        assert(here.len() >= 3 ==> here[2] == s@.skip(a as int)[2]);
        if k == 0 || k > to - a {
            assert(space_at_start(here) == 0) by {
                if here.len() >= 1 {
                    assert(here[0] == s@[a as int]);
                }
                if here.len() >= 2 {
                    assert(here[1] == s@[a + 1]);
                }
                if here.len() >= 3 {
                    assert(here[2] == s@[a + 2]);
                }
            }
            return (a, to);
        }
        assert(space_at_start(here) == k);
        assert(here.skip(k as int) == s@.subrange(a + k, to as int));
        a = a + k;
    }
}

/// Where the part of `s[from..to]` that `trim_end` keeps ends.
pub fn trim_end_at(s: &[u8], from: usize, to: usize) -> (r: usize)
    requires
        from <= to <= s@.len(),
    ensures
        from <= r <= to,
        s@.subrange(from as int, r as int) == trim_end(s@.subrange(from as int, to as int)),
{
    let mut b = to;
    loop
        invariant
            from <= b <= to <= s@.len(),
            trim_end(s@.subrange(from as int, to as int)) == trim_end(
                s@.subrange(from as int, b as int),
            ),
        decreases b - from,
    {
        let k = space_at_end_exec(s, from, b);
        if k == 0 {
            return b;
        }
        let ghost here = s@.subrange(from as int, b as int);
        assert(here.take(here.len() - k) == s@.subrange(from as int, b - k));
        b = b - k;
    }
}

// ---------------------------------------------------------------------------
// Lines, as Rust's `lines` reads them.
/// Where the first line feed in `s` is, or the length of `s` where it has
/// none.
pub open spec fn line_end(s: Seq<u8>) -> nat
    decreases s.len(),
{
    if s.len() == 0 {
        0
    } else if s[0] == 10 {
        0
    } else {
        1 + line_end(s.skip(1))
    }
}

/// A line without the carriage return that ended it with its line feed.
pub open spec fn strip_cr(s: Seq<u8>) -> Seq<u8> {
    if s.len() > 0 && s.last() == 13 {
        s.drop_last()
    } else {
        s
    }
}

/// The lines of `s`: split at each line feed, a carriage return before a line
/// feed dropped with it, and no empty line after a final line feed.
pub open spec fn lines(s: Seq<u8>) -> Seq<Seq<u8>>
    decreases s.len(),
{
    if s.len() == 0 {
        seq![]
    } else if line_end(s) >= s.len() {
        seq![s]
    } else {
        seq![strip_cr(s.take(line_end(s) as int))] + lines(s.skip(line_end(s) as int + 1))
    }
}

/// `line_end` is the first line feed.
pub proof fn lemma_line_end(s: Seq<u8>, k: int)
    requires
        0 <= k <= s.len(),
        forall|j: int| 0 <= j < k ==> s[j] != 10,
        k == s.len() || s[k] == 10,
    ensures
        line_end(s) == k,
    decreases s.len(),
{
    if s.len() > 0 && s[0] != 10 {
        lemma_line_end(s.skip(1), k - 1);
    }
}

/// `line_end` stays within the text.
pub proof fn lemma_line_end_bound(s: Seq<u8>)
    ensures
        line_end(s) <= s.len(),
        line_end(s) < s.len() ==> s[line_end(s) as int] == 10,
        forall|j: int| 0 <= j < line_end(s) ==> s[j] != 10,
    decreases s.len(),
{
    if s.len() > 0 && s[0] != 10 {
        lemma_line_end_bound(s.skip(1));
        assert forall|j: int| 0 <= j < line_end(s) implies s[j] != 10 by {
            if j > 0 {
                assert(s[j] == s.skip(1)[j - 1]);
            }
        }
    }
}

/// One line of a text: where it begins, where its content ends, and where
/// the next one begins.
pub struct LineSpan {
    pub start: usize,
    pub end: usize,
    pub next: usize,
}

/// The line of `s` that begins at `at`, which is not the end of `s`.
pub fn line_at(s: &[u8], at: usize) -> (r: LineSpan)
    requires
        at < s@.len(),
    ensures
        r.start == at,
        at <= r.end <= r.next <= s@.len(),
        r.next > at,
        lines(s@.skip(at as int)) == seq![s@.subrange(at as int, r.end as int)] + lines(
            s@.skip(r.next as int),
        ),
{
    let mut i = at;
    while i < s.len() && s[i] != 10
        invariant
            at <= i <= s@.len(),
            forall|j: int| at <= j < i ==> s@[j] != 10,
        decreases s@.len() - i,
    {
        i = i + 1;
    }
    let ghost t = s@.skip(at as int);
    proof {
        lemma_line_end(t, i - at);
    }
    if i == s.len() {
        assert(t == s@.subrange(at as int, i as int));
        assert(s@.skip(i as int) =~= Seq::<u8>::empty());
        assert(lines(s@.skip(i as int)) =~= Seq::<Seq<u8>>::empty());
        assert(lines(t) == seq![t]);
        assert(seq![t] + lines(s@.skip(i as int)) =~= seq![t]);
        return LineSpan { start: at, end: i, next: i };
    }
    assert(t.skip(i - at + 1) == s@.skip(i + 1));
    let end = if i > at && s[i - 1] == 13 {
        i - 1
    } else {
        i
    };
    assert(strip_cr(t.take(i - at)) == s@.subrange(at as int, end as int));
    LineSpan { start: at, end, next: i + 1 }
}

// ---------------------------------------------------------------------------
// Lists written a line at a time.
/// Each of `items` followed by a line feed.
pub open spec fn each_line(items: Seq<Seq<u8>>) -> Seq<u8>
    decreases items.len(),
{
    if items.len() == 0 {
        seq![]
    } else {
        each_line(items.drop_last()) + items.last() + seq![10u8]
    }
}

/// The byte strings a list holds.
pub open spec fn views(v: Seq<Vec<u8>>) -> Seq<Seq<u8>> {
    Seq::new(v.len(), |i: int| v[i]@)
}

/// Appends each of `items` followed by a line feed.
pub fn push_lines(out: &mut Vec<u8>, items: &Vec<Vec<u8>>)
    ensures
        final(out)@ == old(out)@ + each_line(views(items@)),
{
    let ghost start = out@;
    let mut i: usize = 0;
    while i < items.len()
        invariant
            0 <= i <= items@.len(),
            out@ == start + each_line(views(items@).take(i as int)),
        decreases items@.len() - i,
    {
        push_all(out, items[i].as_slice());
        out.push(10);
        assert(views(items@).take(i + 1).drop_last() =~= views(items@).take(i as int));
        i = i + 1;
    }
    assert(views(items@).take(items@.len() as int) =~= views(items@));
}

/// Appends each byte string of `items`, with `before` in front of each and a
/// line feed after it.
pub fn push_lines_after(out: &mut Vec<u8>, before: &str, items: &Vec<Vec<u8>>)
    ensures
        final(out)@ == old(out)@ + each_line(
            Seq::new(items@.len(), |i: int| lit(before) + items@[i]@),
        ),
{
    let ghost start = out@;
    let ghost all = Seq::new(items@.len(), |i: int| lit(before) + items@[i]@);
    let mut i: usize = 0;
    while i < items.len()
        invariant
            0 <= i <= items@.len(),
            all == Seq::new(items@.len(), |i: int| lit(before) + items@[i]@),
            out@ == start + each_line(all.take(i as int)),
        decreases items@.len() - i,
    {
        push_str(out, before);
        push_all(out, items[i].as_slice());
        out.push(10);
        assert(all.take(i + 1).drop_last() =~= all.take(i as int));
        i = i + 1;
    }
    assert(all.take(items@.len() as int) =~= all);
}

} // verus!
