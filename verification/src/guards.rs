//! The guards part: a tracked text file carrying a character that reorders
//! what a reader sees is refused, the set refused here is held against the
//! set the guard on the server refuses, and the guards only the server runs
//! are named.
//!
//! A citation is text a person reads and a locator is text a person follows,
//! and a character that reorders a rendered line makes the page number a
//! reader sees different from the one the file carries. That failure is
//! invisible in a diff, which is where curation is reviewed. Ordinary
//! characters outside ASCII pass, because the fields a citation depends on
//! are full of them.
//!
//! Refusal surface. This file decides whether a tracked file is refused for
//! the characters it carries.

use vstd::prelude::*;
use vstd::string::StringSliceAdditionalSpecFns;
use vstd::utf8::{
    decode_first_scalar, is_char_boundary, length_of_first_scalar, pop_first_scalar,
    valid_first_scalar, valid_utf8,
};
use crate::endings::{is_binary, looks_binary};
use crate::json::line_of;
use crate::text::{
    contains, contains_exec, copy_all, count_byte_exec, decimal, each_line, line_at, lines, lit,
    push_all, push_decimal, push_lines, push_str, starts_with, trim_start,
    trim_start_range, views,
};
use crate::tree::{FileView, Judged, TrackedFile, Verdict, files_fit, files_of, listing_of};
use crate::unicode::{char_of, first_scalar, is_utf8};

verus! {

/// A run of characters that changes what a reader sees without changing
/// what a parser reads, with the rule it comes from.
#[derive(Debug, Clone, Copy, PartialEq, Eq)]
pub struct Reordering {
    /// The first codepoint of the run.
    pub first: char,
    /// The last codepoint of the run, which is `first` where the run is one
    /// character.
    pub last: char,
    /// What the run does, in words a contributor can act on.
    pub rule: &'static str,
}

/// How many runs are refused.
pub open spec fn run_count() -> nat {
    7
}

/// Run `k` of those refused.
pub open spec fn reordering(k: int) -> Reordering {
    if k == 0 {
        Reordering {
            first: '\u{202A}',
            last: '\u{202E}',
            rule: "an embedding or an override reorders every character after it until it is popped, so a line reads one way and says another",
        }
    } else if k == 1 {
        Reordering {
            first: '\u{2066}',
            last: '\u{2069}',
            rule: "an isolate reorders the run it encloses, and nothing in the rendered line shows where that run began",
        }
    } else if k == 2 {
        Reordering {
            first: '\u{200E}',
            last: '\u{200E}',
            rule: "a left-to-right mark changes the direction of what follows it and takes no width, so a diff shows nothing",
        }
    } else if k == 3 {
        Reordering {
            first: '\u{200F}',
            last: '\u{200F}',
            rule: "a right-to-left mark changes the direction of what follows it and takes no width, so a diff shows nothing",
        }
    } else if k == 4 {
        Reordering {
            first: '\u{061C}',
            last: '\u{061C}',
            rule: "an Arabic letter mark changes direction and takes no width",
        }
    } else if k == 5 {
        Reordering {
            first: '\u{200B}',
            last: '\u{200D}',
            rule: "a zero width space, non-joiner or joiner splits or joins what renders as one word, so two identifiers that look identical are not",
        }
    } else {
        Reordering {
            first: '\u{2060}',
            last: '\u{2060}',
            rule: "a word joiner takes no width and has no use in a register file",
        }
    }
}

/// Every run of characters this refuses.
///
/// It is the set the guard on the server carries. The byte order mark is
/// deliberately absent; for a register record it is refused anyway, by the
/// canonical form.
pub fn reorderings() -> (r: Vec<Reordering>)
    ensures
        r@.len() == run_count(),
        forall|k: int| 0 <= k < r@.len() ==> #[trigger] r@[k] == reordering(k),
{
    let mut r: Vec<Reordering> = Vec::new();
    r.push(Reordering {
        first: '\u{202A}',
        last: '\u{202E}',
        rule: "an embedding or an override reorders every character after it until it is popped, so a line reads one way and says another",
    });
    r.push(Reordering {
        first: '\u{2066}',
        last: '\u{2069}',
        rule: "an isolate reorders the run it encloses, and nothing in the rendered line shows where that run began",
    });
    r.push(Reordering {
        first: '\u{200E}',
        last: '\u{200E}',
        rule: "a left-to-right mark changes the direction of what follows it and takes no width, so a diff shows nothing",
    });
    r.push(Reordering {
        first: '\u{200F}',
        last: '\u{200F}',
        rule: "a right-to-left mark changes the direction of what follows it and takes no width, so a diff shows nothing",
    });
    r.push(Reordering {
        first: '\u{061C}',
        last: '\u{061C}',
        rule: "an Arabic letter mark changes direction and takes no width",
    });
    r.push(Reordering {
        first: '\u{200B}',
        last: '\u{200D}',
        rule: "a zero width space, non-joiner or joiner splits or joins what renders as one word, so two identifiers that look identical are not",
    });
    r.push(Reordering {
        first: '\u{2060}',
        last: '\u{2060}',
        rule: "a word joiner takes no width and has no use in a register file",
    });
    r
}

/// Whether codepoint `c` is in run `k`.
pub open spec fn in_run(c: u32, k: int) -> bool {
    reordering(k).first as u32 <= c <= reordering(k).last as u32
}

/// The first run from `k` on that holds `c`.
pub open spec fn run_from(c: u32, k: int) -> Option<int>
    decreases run_count() - k,
{
    if k < 0 || k >= run_count() {
        None
    } else if in_run(c, k) {
        Some(k)
    } else {
        run_from(c, k + 1)
    }
}

/// The run that holds codepoint `c`, if one does.
pub open spec fn run_of(c: u32) -> Option<int> {
    run_from(c, 0)
}

proof fn lemma_run_bounds(k: int)
    ensures
        0x61C <= reordering(k).first as u32 <= reordering(k).last as u32 <= 0x2069,
{
    if k == 0 {
    } else if k == 1 {
    } else if k == 2 {
    } else if k == 3 {
    } else if k == 4 {
    } else if k == 5 {
    } else {
    }
}

proof fn lemma_run_from(c: u32, k: int)
    ensures
        run_from(c, k) matches Some(j) ==> k <= j < run_count() && in_run(c, j),
    decreases run_count() - k,
{
    if 0 <= k < run_count() && !in_run(c, k) {
        lemma_run_from(c, k + 1);
    }
}

fn run_of_exec(c: u32, runs: &Vec<Reordering>) -> (r: Option<usize>)
    requires
        runs@.len() == run_count(),
        forall|k: int| 0 <= k < runs@.len() ==> #[trigger] runs@[k] == reordering(k),
    ensures
        match run_of(c) {
            Some(k) => r == Some(k as usize),
            None => r is None,
        },
        r matches Some(j) ==> j < run_count(),
{
    let mut k: usize = 0;
    while k < runs.len()
        invariant
            0 <= k <= runs@.len(),
            runs@.len() == run_count(),
            forall|j: int| 0 <= j < runs@.len() ==> #[trigger] runs@[j] == reordering(j),
            run_of(c) == run_from(c, k as int),
        decreases runs@.len() - k,
    {
        let run = runs[k];
        assert(run == reordering(k as int));
        if run.first as u32 <= c && c <= run.last as u32 {
            return Some(k);
        }
        k = k + 1;
    }
    None
}

/// Every run this refuses is refused at both of its ends: the first and the
/// last codepoint of each run are found in that run.
pub proof fn lemma_every_run_is_refused_at_both_ends(k: int)
    requires
        0 <= k < run_count(),
    ensures
        run_of(reordering(k).first as u32) == Some(k),
        run_of(reordering(k).last as u32) == Some(k),
{
    reveal_with_fuel(run_from, 8);
}

// ---------------------------------------------------------------------------
// How the guard on the server spells a run.
/// An upper case hexadecimal digit.
pub open spec fn hex_upper(d: u32) -> u8 {
    if d < 10 {
        (48 + d) as u8
    } else {
        (55 + d) as u8
    }
}

/// The upper case hexadecimal digits of `v`, padded with zeros in front to
/// at least `n` of them.
pub open spec fn hex_padded(v: nat, n: nat) -> Seq<u8>
    decreases v + n,
{
    if v < 16 && n <= 1 {
        seq![hex_upper(v as u32)]
    } else {
        hex_padded(v / 16, if n > 0 {
            (n - 1) as nat
        } else {
            0
        }) + seq![hex_upper((v % 16) as u32)]
    }
}

/// A codepoint in upper case hexadecimal, with at least four digits.
pub open spec fn hex4(v: u32) -> Seq<u8> {
    hex_padded(v as nat, 4)
}

/// A codepoint as the pattern writes it: `\x{`, its digits and `}`.
pub open spec fn escape_form(v: u32) -> Seq<u8> {
    lit("\\x{") + hex4(v) + lit("}")
}

/// A run as the pattern writes it.
pub open spec fn spelling(r: Reordering) -> Seq<u8> {
    if r.first == r.last {
        escape_form(r.first as u32)
    } else {
        escape_form(r.first as u32) + lit("-") + escape_form(r.last as u32)
    }
}

fn hex_upper_exec(d: u32) -> (r: u8)
    requires
        d < 16,
    ensures
        r == hex_upper(d),
{
    if d < 10 {
        (48 + d) as u8
    } else {
        (55 + d) as u8
    }
}

/// Appends the upper case hexadecimal digits of `v`, padded with zeros in
/// front to at least `n` of them.
fn push_hex_padded(out: &mut Vec<u8>, v: u32, n: u32)
    ensures
        final(out)@ == old(out)@ + hex_padded(v as nat, n as nat),
    decreases v + n,
{
    if v < 16 && n <= 1 {
        out.push(hex_upper_exec(v));
        assert(hex_padded(v as nat, n as nat) == seq![hex_upper(v)]);
    } else {
        let fewer: u32 = if n > 0 {
            n - 1
        } else {
            0
        };
        let ghost before = out@;
        push_hex_padded(out, v / 16, fewer);
        out.push(hex_upper_exec(v % 16));
        assert(hex_padded(v as nat, n as nat) == hex_padded((v / 16) as nat, fewer as nat) + seq![
            hex_upper(v % 16),
        ]);
        assert(out@ =~= before + hex_padded(v as nat, n as nat));
    }
}

/// Appends the upper case hexadecimal digits of `v`, at least four of them.
pub fn push_hex4(out: &mut Vec<u8>, v: u32)
    ensures
        final(out)@ == old(out)@ + hex4(v),
{
    push_hex_padded(out, v, 4);
}

impl Reordering {
    /// The run as the guard on the server spells it inside its pattern.
    ///
    /// Derived from the range rather than written beside it. Held as a
    /// second field it could disagree with the range it names.
    pub fn spelled(&self) -> (r: Vec<u8>)
        ensures
            r@ == spelling(*self),
    {
        let mut out: Vec<u8> = Vec::new();
        push_str(&mut out, "\\x{");
        push_hex4(&mut out, self.first as u32);
        push_str(&mut out, "}");
        if self.first != self.last {
            push_str(&mut out, "-");
            push_str(&mut out, "\\x{");
            push_hex4(&mut out, self.last as u32);
            push_str(&mut out, "}");
        }
        assert(out@ =~= spelling(*self));
        out
    }
}

// ---------------------------------------------------------------------------
// Whether the two guards agree.
/// The line of the server's guard that assigns the pattern: the first whose
/// text, leading whitespace aside, opens with `pattern=`, or nothing.
pub open spec fn pattern_line(ls: Seq<Seq<u8>>) -> Seq<u8>
    decreases ls.len(),
{
    if ls.len() == 0 {
        seq![]
    } else if starts_with(trim_start(ls[0]), lit("pattern=")) {
        ls[0]
    } else {
        pattern_line(ls.drop_first())
    }
}

/// The first `k` runs, those the pattern does not spell.
pub open spec fn adrift_upto(pattern: Seq<u8>, k: int) -> Seq<Reordering>
    decreases k,
{
    if k <= 0 {
        seq![]
    } else if contains(pattern, spelling(reordering(k - 1))) {
        adrift_upto(pattern, k - 1)
    } else {
        adrift_upto(pattern, k - 1).push(reordering(k - 1))
    }
}

/// Every run this refuses that the pattern of the server's guard does not
/// name.
pub open spec fn adrift(server: Seq<u8>) -> Seq<Reordering> {
    adrift_upto(pattern_line(lines(server)), run_count() as int)
}

fn pattern_of(server: &[u8]) -> (r: Vec<u8>)
    ensures
        r@ == pattern_line(lines(server@)),
{
    let n = server.len();
    let mut at: usize = 0;
    assert(server@.skip(0) =~= server@);
    while at < n
        invariant
            n == server@.len(),
            at <= n,
            pattern_line(lines(server@)) == pattern_line(lines(server@.skip(at as int))),
        decreases n - at,
    {
        let span = line_at(server, at);
        let ghost one = server@.subrange(at as int, span.end as int);
        let (a, _) = trim_start_range(server, span.start, span.end);
        let trimmed = crate::text::copy_range(server, a, span.end);
        let opens = crate::text::starts_with_exec(trimmed.as_slice(), "pattern=".as_bytes());
        proof {
            assert(lines(server@.skip(at as int))[0] == one);
            assert(lines(server@.skip(at as int)).drop_first() =~= lines(
                server@.skip(span.next as int),
            ));
        }
        if opens {
            return crate::text::copy_range(server, span.start, span.end);
        }
        at = span.next;
    }
    assert(server@.skip(at as int) =~= Seq::<u8>::empty());
    assert(lines(server@.skip(at as int)) =~= Seq::<Seq<u8>>::empty());
    Vec::new()
}

/// Every run this refuses that the text of the server-side guard does not
/// name.
///
/// Only the line that assigns the pattern is read. The prose around it
/// names several of these codepoints in another spelling, and reading the
/// whole file would let a comment stand in for the pattern, which is the
/// direction that fails open. A file with no such line leaves every run
/// adrift and is refused.
pub fn adrift_from(server: &[u8]) -> (r: Vec<Reordering>)
    ensures
        r@ == adrift(server@),
{
    let pattern = pattern_of(server);
    let runs = reorderings();
    let mut out: Vec<Reordering> = Vec::new();
    let mut k: usize = 0;
    while k < runs.len()
        invariant
            0 <= k <= runs@.len(),
            runs@.len() == run_count(),
            forall|j: int| 0 <= j < runs@.len() ==> #[trigger] runs@[j] == reordering(j),
            pattern@ == pattern_line(lines(server@)),
            out@ == adrift_upto(pattern@, k as int),
        decreases runs@.len() - k,
    {
        let run = runs[k];
        assert(run == reordering(k as int));
        let spelled = run.spelled();
        if !contains_exec(pattern.as_slice(), spelled.as_slice()) {
            out.push(run);
        }
        k = k + 1;
    }
    out
}

// ---------------------------------------------------------------------------
// The characters a text carries.
/// Every reordering character in `s` from byte `at` on, with the line it is
/// on, counting from one, and the run it belongs to. The reading stops where
/// no well-formed character begins.
pub open spec fn hits_from(s: Seq<u8>, at: int) -> Seq<(nat, u32, Reordering)>
    decreases s.len() - at,
{
    if !(0 <= at < s.len()) || !valid_first_scalar(s.skip(at)) || length_of_first_scalar(
        s.skip(at),
    ) < 1 {
        seq![]
    } else {
        let c = decode_first_scalar(s.skip(at));
        let rest = hits_from(s, at + length_of_first_scalar(s.skip(at)));
        match run_of(c) {
            Some(k) => seq![(line_of(s, at), c, reordering(k))] + rest,
            None => rest,
        }
    }
}

/// What a list of found characters says, as the checks state it.
pub open spec fn found_view(v: Seq<(usize, char, Reordering)>) -> Seq<(nat, u32, Reordering)> {
    Seq::new(v.len(), |i: int| (v[i].0 as nat, v[i].1 as u32, v[i].2))
}

/// Every reordering character in the bytes of a text.
pub fn reorders_in(s: &[u8]) -> (r: Vec<(usize, char, Reordering)>)
    requires
        s@.len() < usize::MAX,
    ensures
        found_view(r@) == hits_from(s@, 0),
{
    let runs = reorderings();
    let n = s.len();
    let mut found: Vec<(usize, char, Reordering)> = Vec::new();
    let mut at: usize = 0;
    while at < n
        invariant
            n == s@.len(),
            n < usize::MAX,
            at <= n,
            runs@.len() == run_count(),
            forall|j: int| 0 <= j < runs@.len() ==> #[trigger] runs@[j] == reordering(j),
            found_view(found@) + hits_from(s@, at as int) == hits_from(s@, 0),
        decreases n - at,
    {
        match first_scalar(s, at) {
            None => {
                assert(hits_from(s@, at as int) =~= Seq::<(nat, u32, Reordering)>::empty());
                assert(found_view(found@) =~= hits_from(s@, 0));
                return found;
            },
            Some((c, k)) => {
                let ghost before = found_view(found@);
                let ghost rest = hits_from(s@, at + k);
                match run_of_exec(c, &runs) {
                    Some(j) => {
                        let line = count_byte_exec(s, at, 10) + 1;
                        let run = runs[j];
                        assert(run == reordering(j as int));
                        proof {
                            lemma_run_from(c, 0);
                            assert(in_run(c, j as int));
                            assert(0x61C <= c <= 0x2069);
                        }
                        assert(vstd::utf8::is_scalar(c));
                        let ch = char_of(c).unwrap();
                        found.push((line, ch, run));
                        assert(found_view(found@) =~= before.push((line_of(s@, at as int), c, run)));
                        assert(valid_first_scalar(s@.skip(at as int)));
                        assert(decode_first_scalar(s@.skip(at as int)) == c);
                        assert(length_of_first_scalar(s@.skip(at as int)) == k);
                        assert(run_of(c) == Some(j as int));
                        assert(hits_from(s@, at as int) == seq![(line_of(s@, at as int), c, run)]
                            + rest);
                        assert(found_view(found@) + rest =~= before + hits_from(s@, at as int));
                    },
                    None => {},
                }
                at = at + k;
            },
        }
    }
    assert(hits_from(s@, at as int) =~= Seq::<(nat, u32, Reordering)>::empty());
    assert(found_view(found@) =~= hits_from(s@, 0));
    found
}

/// Every reordering character in `text`, with the line it is on and the run
/// it belongs to.
///
/// The line is counted from one, and each occurrence is reported rather than
/// each file, because the repair is per occurrence.
pub fn reorders(text: &str) -> (r: Vec<(usize, char, Reordering)>)
    requires
        text.spec_bytes().len() < usize::MAX,
    ensures
        found_view(r@) == hits_from(text.spec_bytes(), 0),
{
    reorders_in(text.as_bytes())
}

// ---------------------------------------------------------------------------
// The guards the server runs and this does not.
/// Where the guard that runs on the server keeps the same set.
pub const SERVER_SIDE_GUARD: &'static str = ".github/workflows/unicode-guard.yml";

/// A guard this repository has that this command does not run, and what
/// running it here would cost.
pub struct Elsewhere {
    /// The name its run carries, which is the only handle a protection rule
    /// has on it.
    pub name: &'static str,
    /// What it reads.
    pub reads: &'static str,
    /// What running it inside this command would cost.
    pub cost: &'static str,
}

/// How many guards run on the server and not here.
pub open spec fn elsewhere_count() -> nat {
    4
}

/// Guard `k` of those that run on the server and not here.
pub open spec fn elsewhere(k: int) -> Elsewhere {
    if k == 0 {
        Elsewhere {
            name: "DCO sign-off",
            reads: "every commit of a change against the base it was opened on",
            cost: "a base nobody has named locally, so a run here would judge whatever this clone last fetched and call it the change",
        }
    } else if k == 1 {
        Elsewhere {
            name: "dependency-review",
            reads: "what a change adds to the dependency graph, as the forge computes it for a base and a head",
            cost: "a call out to that forge on every run, and a credential to make it with, neither of which this command has or wants",
        }
    } else if k == 2 {
        Elsewhere {
            name: "Audit workflows (zizmor)",
            reads: "the workflow files, for the ways a job can be made to do what it was not asked to",
            cost: "an analyser this tree does not carry, so a second toolchain pinned and installed before the run could start",
        }
    } else {
        Elsewhere {
            name: "Scorecard analysis",
            reads: "the repository's own settings and history, which live at the forge rather than in the tree",
            cost: "the same call out and credential as the dependency review, over state no clone holds",
        }
    }
}

/// Every guard that runs on the server and not here.
pub fn elsewhere_guards() -> (r: Vec<Elsewhere>)
    ensures
        r@.len() == elsewhere_count(),
        forall|k: int| 0 <= k < r@.len() ==> #[trigger] r@[k] == elsewhere(k),
{
    let mut r: Vec<Elsewhere> = Vec::new();
    r.push(Elsewhere {
        name: "DCO sign-off",
        reads: "every commit of a change against the base it was opened on",
        cost: "a base nobody has named locally, so a run here would judge whatever this clone last fetched and call it the change",
    });
    r.push(Elsewhere {
        name: "dependency-review",
        reads: "what a change adds to the dependency graph, as the forge computes it for a base and a head",
        cost: "a call out to that forge on every run, and a credential to make it with, neither of which this command has or wants",
    });
    r.push(Elsewhere {
        name: "Audit workflows (zizmor)",
        reads: "the workflow files, for the ways a job can be made to do what it was not asked to",
        cost: "an analyser this tree does not carry, so a second toolchain pinned and installed before the run could start",
    });
    r.push(Elsewhere {
        name: "Scorecard analysis",
        reads: "the repository's own settings and history, which live at the forge rather than in the tree",
        cost: "the same call out and credential as the dependency review, over state no clone holds",
    });
    r
}

/// The first `k` guards that run elsewhere, as the note names them.
pub open spec fn elsewhere_lines(k: int) -> Seq<u8>
    decreases k,
{
    if k <= 0 {
        seq![]
    } else {
        elsewhere_lines(k - 1) + lit("\n  ") + lit(elsewhere(k - 1).name) + lit("\n    reads ")
            + lit(elsewhere(k - 1).reads) + lit("\n    would cost ") + lit(elsewhere(k - 1).cost)
    }
}

// ---------------------------------------------------------------------------
// The check.
/// One reordering character of a file, as a refusal names it.
pub open spec fn offence(name: Seq<u8>, h: (nat, u32, Reordering)) -> Seq<u8> {
    lit("  ") + name + lit(":") + decimal(h.0) + lit("  U+") + hex4(h.1) + lit("\n      ") + lit(
        h.2.rule,
    )
}

/// Every reordering character of a file, as a refusal names them.
pub open spec fn offences(name: Seq<u8>, hs: Seq<(nat, u32, Reordering)>) -> Seq<Seq<u8>>
    decreases hs.len(),
{
    if hs.len() == 0 {
        seq![]
    } else {
        offences(name, hs.drop_last()).push(offence(name, hs.last()))
    }
}

/// What the walk over a tree found.
pub struct GuardTally {
    pub offences: Seq<Seq<u8>>,
    pub read: nat,
    pub binary: nat,
    pub undecodable: Seq<Seq<u8>>,
}

/// The walk over the first files of a tree. A file that could not be read
/// is passed over.
pub open spec fn tally_guards(fs: Seq<FileView>) -> GuardTally
    decreases fs.len(),
{
    if fs.len() == 0 {
        GuardTally { offences: seq![], read: 0, binary: 0, undecodable: seq![] }
    } else {
        let t = tally_guards(fs.drop_last());
        let f = fs.last();
        match f.bytes {
            Err(_) => t,
            Ok(b) => if looks_binary(b) {
                GuardTally { binary: t.binary + 1, ..t }
            } else if !valid_utf8(b) {
                GuardTally { undecodable: t.undecodable.push(f.name), ..t }
            } else {
                GuardTally {
                    read: t.read + 1,
                    offences: t.offences + offences(f.name, hits_from(b, 0)),
                    ..t
                }
            },
        }
    }
}

/// The runs adrift from the server's pattern, as a refusal names them.
pub open spec fn adrift_lines(rs: Seq<Reordering>) -> Seq<u8>
    decreases rs.len(),
{
    if rs.len() == 0 {
        seq![]
    } else {
        adrift_lines(rs.drop_last()) + lit("  ") + spelling(rs.last()) + lit("\n      ") + lit(
            rs.last().rule,
        ) + seq![10u8]
    }
}

/// The names of the files that are not UTF-8, as the note names them.
pub open spec fn unjudged(names: Seq<Seq<u8>>) -> Seq<u8>
    decreases names.len(),
{
    if names.len() == 0 {
        seq![]
    } else {
        unjudged(names.drop_last()) + lit(", ") + names.last() + lit(
            " is not UTF-8 and was not judged",
        )
    }
}

/// What the refusal says when the server's guard cannot be read.
pub const SERVER_GUARD_MISSING: &'static str = " could not be read, so the check whose name the protection rule on the default branch requires is not in this tree. A rule pointing at a name nothing produces passes everything.\n";

/// What the refusal says after the runs the two guards disagree about.
pub const MOVE_BOTH: &'static str = "\nThe set is one thing held in two places because the name that job produces is required for a merge. Move both or neither.\n";

/// What the refusal says after the characters it names.
pub const CODEPOINT_PRINTED: &'static str = "\nThe codepoint is printed and the character is not, so this refusal can be quoted into an issue without carrying the thing it is about.\n";

/// The note of a run that refused nothing: what was read, what was skipped,
/// what was not UTF-8, and the guards run elsewhere.
pub open spec fn guards_note(t: GuardTally) -> Seq<u8> {
    decimal(t.read) + lit(" text file(s) read") + (if t.binary > 0 {
        lit(", ") + decimal(t.binary) + lit(" skipped as binary and not judged")
    } else {
        seq![]
    }) + unjudged(t.undecodable) + lit("\n") + decimal(elsewhere_count()) + lit(
        " guard(s) run at the forge and not here, and what running each here would cost:",
    ) + elsewhere_lines(elsewhere_count() as int)
}

/// What the check finds, given the tree and what reading the server's guard
/// gave.
pub open spec fn guards_verdict(
    listing: Result<Seq<FileView>, Seq<u8>>,
    server: Result<Seq<u8>, Seq<u8>>,
) -> Verdict {
    match listing {
        Err(why) => Verdict::CouldNotJudge(why),
        Ok(fs) => {
            if !(server matches Ok(text) && valid_utf8(text)) {
                Verdict::Refused(lit(SERVER_SIDE_GUARD) + lit(SERVER_GUARD_MISSING))
            } else if adrift(server->Ok_0).len() > 0 {
                let a = adrift(server->Ok_0);
                Verdict::Refused(
                    decimal(a.len()) + lit(" run(s) refused here are not in the pattern ") + lit(
                        SERVER_SIDE_GUARD,
                    ) + lit(" uses, so the two guards disagree about what they refuse:\n\n")
                        + adrift_lines(a) + lit(MOVE_BOTH),
                )
            } else {
                let t = tally_guards(fs);
                if t.offences.len() > 0 {
                    Verdict::Refused(
                        decimal(t.offences.len()) + lit(
                            " character(s) that reorder what a reader sees:\n\n",
                        ) + each_line(t.offences) + lit(CODEPOINT_PRINTED),
                    )
                } else {
                    Verdict::Nothing(Some(guards_note(t)))
                }
            }
        },
    }
}

/// Appends one offence line for each character found in a file.
fn push_offences(
    out: &mut Vec<Vec<u8>>,
    name: &[u8],
    found: &Vec<(usize, char, Reordering)>,
)
    requires
        forall|i: int| 0 <= i < found@.len() ==> (#[trigger] found@[i]).1 as u32 <= 0xFFFF,
    ensures
        views(final(out)@) == views(old(out)@) + offences(name@, found_view(found@)),
{
    let ghost start = views(out@);
    let mut i: usize = 0;
    while i < found.len()
        invariant
            0 <= i <= found@.len(),
            forall|j: int| 0 <= j < found@.len() ==> (#[trigger] found@[j]).1 as u32 <= 0xFFFF,
            views(out@) == start + offences(name@, found_view(found@).take(i as int)),
        decreases found@.len() - i,
    {
        let (line, ch, run) = found[i];
        let mut one: Vec<u8> = Vec::new();
        push_str(&mut one, "  ");
        push_all(&mut one, name);
        push_str(&mut one, ":");
        push_decimal(&mut one, line);
        push_str(&mut one, "  U+");
        push_hex4(&mut one, ch as u32);
        push_str(&mut one, "\n      ");
        push_str(&mut one, run.rule);
        let ghost before = views(out@);
        out.push(one);
        proof {
            assert(views(out@) =~= before.push(one@));
            let v = found_view(found@);
            assert(v.take(i + 1).drop_last() =~= v.take(i as int));
            assert(v.take(i + 1).last() == v[i as int]);
            assert(one@ =~= offence(name@, v[i as int]));
        }
        i = i + 1;
    }
    assert(found_view(found@).take(found@.len() as int) =~= found_view(found@));
}

proof fn lemma_hits_are_in_runs(s: Seq<u8>, at: int)
    ensures
        forall|i: int|
            0 <= i < hits_from(s, at).len() ==> (#[trigger] hits_from(s, at)[i]).1 <= 0xFFFF,
    decreases s.len() - at,
{
    if 0 <= at < s.len() && valid_first_scalar(s.skip(at)) && length_of_first_scalar(s.skip(at))
        >= 1 {
        let c = decode_first_scalar(s.skip(at));
        let rest = hits_from(s, at + length_of_first_scalar(s.skip(at)));
        lemma_hits_are_in_runs(s, at + length_of_first_scalar(s.skip(at)));
        lemma_run_from(c, 0);
        if let Some(k) = run_of(c) {
            lemma_run_bounds(k);
            assert(hits_from(s, at) == seq![(line_of(s, at), c, reordering(k))] + rest);
            assert forall|i: int| 0 <= i < hits_from(s, at).len() implies (#[trigger] hits_from(
                s,
                at,
            )[i]).1 <= 0xFFFF by {
                if i > 0 {
                    assert(hits_from(s, at)[i] == rest[i - 1]);
                }
            }
        }
    }
}

/// The refusal that names the runs the server's pattern misses.
fn adrift_refusal(missing: &Vec<Reordering>) -> (r: Vec<u8>)
    ensures
        r@ == decimal(missing@.len()) + lit(" run(s) refused here are not in the pattern ") + lit(
            SERVER_SIDE_GUARD,
        ) + lit(" uses, so the two guards disagree about what they refuse:\n\n") + adrift_lines(
            missing@,
        ) + lit(MOVE_BOTH),
{
    let mut why: Vec<u8> = Vec::new();
    push_decimal(&mut why, missing.len());
    push_str(&mut why, " run(s) refused here are not in the pattern ");
    push_str(&mut why, SERVER_SIDE_GUARD);
    push_str(&mut why, " uses, so the two guards disagree about what they refuse:\n\n");
    let ghost start = why@;
    let mut k: usize = 0;
    while k < missing.len()
        invariant
            0 <= k <= missing@.len(),
            why@ == start + adrift_lines(missing@.take(k as int)),
        decreases missing@.len() - k,
    {
        let run = missing[k];
        let ghost before = why@;
        let spelled = run.spelled();
        push_str(&mut why, "  ");
        push_all(&mut why, spelled.as_slice());
        push_str(&mut why, "\n      ");
        push_str(&mut why, run.rule);
        why.push(10);
        assert(why@ =~= before + lit("  ") + spelling(run) + lit("\n      ") + lit(run.rule) + seq![
            10u8,
        ]);
        assert(missing@.take(k + 1).drop_last() =~= missing@.take(k as int));
        k = k + 1;
    }
    assert(missing@.take(missing@.len() as int) =~= missing@);
    push_str(&mut why, MOVE_BOTH);
    why
}

/// What the walk over the files found: the offence lines, the files that
/// are not UTF-8, how many were read and how many were binary.
fn walk_guards(files: &Vec<TrackedFile>) -> (r: (Vec<Vec<u8>>, Vec<Vec<u8>>, usize, usize))
    requires
        files_fit(Ok(files_of(files@))),
    ensures
        views(r.0@) == tally_guards(files_of(files@)).offences,
        views(r.1@) == tally_guards(files_of(files@)).undecodable,
        r.2 == tally_guards(files_of(files@)).read,
        r.3 == tally_guards(files_of(files@)).binary,
{
    let ghost fs = files_of(files@);
    let mut found: Vec<Vec<u8>> = Vec::new();
    let mut undecodable: Vec<Vec<u8>> = Vec::new();
    let mut read: usize = 0;
    let mut binary: usize = 0;
    let mut i: usize = 0;
    while i < files.len()
        invariant
            0 <= i <= files@.len(),
            fs == files_of(files@),
            files_fit(Ok(fs)),
            views(found@) == tally_guards(fs.take(i as int)).offences,
            views(undecodable@) == tally_guards(fs.take(i as int)).undecodable,
            read == tally_guards(fs.take(i as int)).read,
            binary == tally_guards(fs.take(i as int)).binary,
            read + binary <= i,
        decreases files@.len() - i,
    {
        let f = &files[i];
        assert(fs.take(i + 1).drop_last() =~= fs.take(i as int));
        assert(fs.take(i + 1).last() == fs[i as int]);
        match &f.bytes {
            Err(_) => {},
            Ok(bytes) => {
                if is_binary(bytes.as_slice()) {
                    binary = binary + 1;
                } else if !is_utf8(bytes.as_slice()) {
                    let ghost before = views(undecodable@);
                    undecodable.push(copy_all(f.name.as_slice()));
                    assert(views(undecodable@) =~= before.push(f.name@));
                } else {
                    read = read + 1;
                    assert(fs[i as int].bytes == Ok::<Seq<u8>, Seq<u8>>(bytes@));
                    let hits = reorders_in(bytes.as_slice());
                    proof {
                        lemma_hits_are_in_runs(bytes@, 0);
                        assert forall|j: int| 0 <= j < hits@.len() implies (#[trigger] hits@[j]).1
                            as u32 <= 0xFFFF by {
                            assert(found_view(hits@)[j] == hits_from(bytes@, 0)[j]);
                        }
                    }
                    let ghost before = views(found@);
                    push_offences(&mut found, f.name.as_slice(), &hits);
                }
            },
        }
        i = i + 1;
    }
    assert(fs.take(files@.len() as int) =~= fs);
    (found, undecodable, read, binary)
}

/// The note of a run that refused nothing.
fn note_of_guards(read: usize, binary: usize, undecodable: &Vec<Vec<u8>>) -> (r: Vec<u8>)
    ensures
        r@ == guards_note(
            GuardTally { offences: seq![], read: read as nat, binary: binary as nat, undecodable: views(undecodable@) },
        ),
{
    let mut note: Vec<u8> = Vec::new();
    push_decimal(&mut note, read);
    push_str(&mut note, " text file(s) read");
    if binary > 0 {
        push_str(&mut note, ", ");
        push_decimal(&mut note, binary);
        push_str(&mut note, " skipped as binary and not judged");
    }
    let ghost head = note@;
    let mut k: usize = 0;
    while k < undecodable.len()
        invariant
            0 <= k <= undecodable@.len(),
            note@ == head + unjudged(views(undecodable@).take(k as int)),
        decreases undecodable@.len() - k,
    {
        push_str(&mut note, ", ");
        push_all(&mut note, undecodable[k].as_slice());
        push_str(&mut note, " is not UTF-8 and was not judged");
        assert(views(undecodable@).take(k + 1).drop_last() =~= views(undecodable@).take(k as int));
        k = k + 1;
    }
    assert(views(undecodable@).take(undecodable@.len() as int) =~= views(undecodable@));
    let guards = elsewhere_guards();
    push_str(&mut note, "\n");
    push_decimal(&mut note, guards.len());
    push_str(
        &mut note,
        " guard(s) run at the forge and not here, and what running each here would cost:",
    );
    let ghost middle = note@;
    let mut k: usize = 0;
    while k < guards.len()
        invariant
            0 <= k <= guards@.len(),
            guards@.len() == elsewhere_count(),
            forall|j: int| 0 <= j < guards@.len() ==> #[trigger] guards@[j] == elsewhere(j),
            note@ == middle + elsewhere_lines(k as int),
        decreases guards@.len() - k,
    {
        let g = &guards[k];
        assert(*g == elsewhere(k as int));
        push_str(&mut note, "\n  ");
        push_str(&mut note, g.name);
        push_str(&mut note, "\n    reads ");
        push_str(&mut note, g.reads);
        push_str(&mut note, "\n    would cost ");
        push_str(&mut note, g.cost);
        k = k + 1;
    }
    note
}

/// Refuses a tracked text file carrying a character that reorders what a
/// reader sees, and names the guards this command did not run.
///
/// The server's guard is read first and held against this one: a file that
/// cannot be read, or whose pattern misses a run refused here, is refused,
/// because the name that job produces is required for a merge and a rule
/// pointing at a name nothing produces passes everything. A file that is not
/// UTF-8 is named rather than counted, because a file this check did not
/// judge is the one place it fails open.
pub fn every_guard_is_accounted_for(
    listing: &Result<Vec<TrackedFile>, Vec<u8>>,
    server: &Result<Vec<u8>, Vec<u8>>,
) -> (r: Judged)
    requires
        files_fit(listing_of(*listing)),
    ensures
        r@ == guards_verdict(
            listing_of(*listing),
            match server {
                Ok(b) => Ok(b@),
                Err(e) => Err(e@),
            },
        ),
{
    let files = match listing {
        Err(why) => {
            return Judged::CouldNotJudge(copy_all(why.as_slice()));
        },
        Ok(files) => files,
    };
    let text = match server {
        Ok(b) => b,
        Err(_) => {
            let mut why: Vec<u8> = Vec::new();
            push_str(&mut why, SERVER_SIDE_GUARD);
            push_str(&mut why, SERVER_GUARD_MISSING);
            return Judged::Refused(why);
        },
    };
    if !is_utf8(text.as_slice()) {
        let mut why: Vec<u8> = Vec::new();
        push_str(&mut why, SERVER_SIDE_GUARD);
        push_str(&mut why, SERVER_GUARD_MISSING);
        return Judged::Refused(why);
    }
    let missing = adrift_from(text.as_slice());
    if missing.len() > 0 {
        return Judged::Refused(adrift_refusal(&missing));
    }
    let (found, undecodable, read, binary) = walk_guards(files);
    let ghost fs = files_of(files@);
    let ghost t = tally_guards(fs);
    if found.len() > 0 {
        let mut why: Vec<u8> = Vec::new();
        push_decimal(&mut why, found.len());
        push_str(&mut why, " character(s) that reorder what a reader sees:\n\n");
        push_lines(&mut why, &found);
        push_str(&mut why, CODEPOINT_PRINTED);
        return Judged::Refused(why);
    }
    Judged::Nothing(Some(note_of_guards(read, binary, &undecodable)))
}


/// Every codepoint of a run, not only its ends, is found in that run: the
/// runs do not overlap, so the search names exactly the run a codepoint lies
/// in.
pub proof fn lemma_every_codepoint_of_a_run_is_found(c: u32, k: int)
    requires
        0 <= k < run_count(),
        reordering(k).first as u32 <= c <= reordering(k).last as u32,
    ensures
        run_of(c) == Some(k),
{
    reveal_with_fuel(run_from, 8);
}

/// Every character of a text that lies in a run is found, wherever it
/// stands: where the text from `at` on is UTF-8, a character beginning at
/// `p` that lies in run `k` is a hit on its line, in that run.
pub proof fn lemma_every_reordering_character_is_found(s: Seq<u8>, at: int, p: int, k: int)
    requires
        0 <= at <= p < s.len(),
        valid_utf8(s.skip(at)),
        is_char_boundary(s.skip(at), p - at),
        0 <= k < run_count(),
        reordering(k).first as u32 <= decode_first_scalar(s.skip(p)) <= reordering(k).last as u32,
    ensures
        hits_from(s, at).contains((line_of(s, p), decode_first_scalar(s.skip(p)), reordering(k))),
    decreases s.len() - at,
{
    let t = s.skip(at);
    lemma_every_codepoint_of_a_run_is_found(decode_first_scalar(s.skip(p)), k);
    assert(t.len() > 0);
    assert(valid_first_scalar(t));
    let w = length_of_first_scalar(t);
    assert(1 <= w <= t.len());
    if p == at {
        assert(hits_from(s, at)[0] == (line_of(s, p), decode_first_scalar(s.skip(p)), reordering(
            k,
        )));
    } else {
        assert(pop_first_scalar(t) =~= s.skip(at + w));
        assert(is_char_boundary(pop_first_scalar(t), p - at - w));
        lemma_every_reordering_character_is_found(s, at + w, p, k);
        let c = decode_first_scalar(t);
        let rest = hits_from(s, at + w);
        let h = (line_of(s, p), decode_first_scalar(s.skip(p)), reordering(k));
        let j = choose|j: int| 0 <= j < rest.len() && rest[j] == h;
        match run_of(c) {
            Some(m) => {
                assert(hits_from(s, at) == seq![(line_of(s, at), c, reordering(m))] + rest);
                assert(hits_from(s, at)[j + 1] == h);
            },
            None => {
                assert(hits_from(s, at) == rest);
            },
        }
    }
}
} // verus!
