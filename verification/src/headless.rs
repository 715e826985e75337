//! The headless part: a test that reaches a surface the suite may not depend
//! on is refused.
//!
//! What it reads is test code in tracked Rust files: everything from the
//! first `#[cfg(test)]` in a file to the end of it, and the whole of any
//! file under a `tests/` directory. Production code is not judged, because
//! the rule is about the suite. It reads text, so it catches the ordinary
//! mistake written in the ordinary spelling and cannot see a path assembled
//! at run time.
//!
//! Refusal surface. This file decides whether test code is refused for what
//! it reaches.

use vstd::prelude::*;
use vstd::string::StringSliceAdditionalSpecFns;
use crate::paths::{has_extension, has_extension_exec};
use crate::text::{
    contains, contains_exec, copy_all, copy_range, decimal, each_line, line_at, lines, lit,
    push_all, push_decimal, push_lines, push_str, starts_with, starts_with_exec, trim_start,
    trim_start_range, views,
};
use crate::tree::{FileView, Judged, TrackedFile, Verdict, files_fit, files_of, listing_of, text_of};
use crate::unicode::is_utf8;
use vstd::utf8::valid_utf8;

verus! {

/// A surface a test may not reach, with the rule it comes from.
#[derive(Debug, Clone, Copy)]
pub struct Forbidden {
    /// The text that names the surface.
    pub spelling: &'static str,
    /// The rule, in words a contributor can act on without opening this file.
    pub rule: &'static str,
}

/// How many surfaces a test may not reach.
pub open spec fn forbidden_count() -> nat {
    10
}

/// Surface `k` of those a test may not reach.
pub open spec fn forbidden(k: int) -> Forbidden {
    if k == 0 {
        Forbidden {
            spelling: "DISPLAY",
            rule: "a test may not require a display server or read a display environment variable to decide what to do",
        }
    } else if k == 1 {
        Forbidden { spelling: "TcpStream", rule: "a test may not require a socket to connect" }
    } else if k == 2 {
        Forbidden { spelling: "TcpListener", rule: "a test may not listen on a socket" }
    } else if k == 3 {
        Forbidden { spelling: "UdpSocket", rule: "a test may not require a socket" }
    } else if k == 4 {
        Forbidden { spelling: "to_socket_addrs", rule: "a test may not require a name to resolve" }
    } else if k == 5 {
        Forbidden {
            spelling: "sudo",
            rule: "a test may not require administrative rights or a prompt that asks for them",
        }
    } else if k == 6 {
        Forbidden { spelling: "runas", rule: "a test may not require elevation" }
    } else if k == 7 {
        Forbidden {
            spelling: "schtasks",
            rule: "a test may not register a scheduled task or anything that outlives it",
        }
    } else if k == 8 {
        Forbidden { spelling: "sc.exe", rule: "a test may not register or start a service" }
    } else {
        Forbidden {
            spelling: "dev-certs",
            rule: "a test may not run anything that raises a trust or consent prompt",
        }
    }
}

/// A test may reach none of these.
pub fn forbidden_surfaces() -> (r: Vec<Forbidden>)
    ensures
        r@.len() == forbidden_count(),
        forall|k: int| 0 <= k < r@.len() ==> #[trigger] r@[k] == forbidden(k),
{
    let mut r: Vec<Forbidden> = Vec::new();
    r.push(Forbidden {
        spelling: "DISPLAY",
        rule: "a test may not require a display server or read a display environment variable to decide what to do",
    });
    r.push(Forbidden { spelling: "TcpStream", rule: "a test may not require a socket to connect" });
    r.push(Forbidden { spelling: "TcpListener", rule: "a test may not listen on a socket" });
    r.push(Forbidden { spelling: "UdpSocket", rule: "a test may not require a socket" });
    r.push(Forbidden { spelling: "to_socket_addrs", rule: "a test may not require a name to resolve" });
    r.push(Forbidden {
        spelling: "sudo",
        rule: "a test may not require administrative rights or a prompt that asks for them",
    });
    r.push(Forbidden { spelling: "runas", rule: "a test may not require elevation" });
    r.push(Forbidden {
        spelling: "schtasks",
        rule: "a test may not register a scheduled task or anything that outlives it",
    });
    r.push(Forbidden { spelling: "sc.exe", rule: "a test may not register or start a service" });
    r.push(Forbidden {
        spelling: "dev-certs",
        rule: "a test may not run anything that raises a trust or consent prompt",
    });
    r
}

/// Whether a tracked path is a Rust source file.
pub open spec fn rust_path(name: Seq<u8>) -> bool {
    has_extension(name, lit("rs"))
}

/// Whether every line of a file is test code: it is under a `tests/`
/// directory.
pub open spec fn test_path(name: Seq<u8>) -> bool {
    contains(name, lit("/tests/")) || starts_with(name, lit("tests/"))
}

/// Whether a tracked path is a Rust source file.
pub fn is_rust_bytes(name: &[u8]) -> (r: bool)
    ensures
        r == rust_path(name@),
{
    has_extension_exec(name, "rs".as_bytes())
}

/// Whether a tracked path is a Rust source file.
pub fn is_rust(name: &str) -> (r: bool)
    ensures
        r == rust_path(name.spec_bytes()),
{
    is_rust_bytes(name.as_bytes())
}

/// Whether every line of a file is test code.
pub fn is_a_test_file_bytes(name: &[u8]) -> (r: bool)
    ensures
        r == test_path(name@),
{
    contains_exec(name, "/tests/".as_bytes()) || starts_with_exec(name, "tests/".as_bytes())
}

/// Whether every line of a file is test code.
pub fn is_a_test_file(name: &str) -> (r: bool)
    ensures
        r == test_path(name.spec_bytes()),
{
    is_a_test_file_bytes(name.as_bytes())
}

/// The first `k` surfaces a line names, each with the line's number.
pub open spec fn line_reaches(line: Seq<u8>, n: nat, k: int) -> Seq<(nat, &'static str, &'static str)>
    decreases k,
{
    if k <= 0 {
        seq![]
    } else if contains(line, lit(forbidden(k - 1).spelling)) {
        line_reaches(line, n, k - 1).push((n, forbidden(k - 1).spelling, forbidden(k - 1).rule))
    } else {
        line_reaches(line, n, k - 1)
    }
}

/// Whether a line opens the test module: leading whitespace aside, it opens
/// with `#[cfg(test)]`.
pub open spec fn opens_tests(line: Seq<u8>) -> bool {
    starts_with(trim_start(line), lit("#[cfg(test)]"))
}

/// Every surface the test code among `ls` reaches, the first of them being
/// line `n`. Before the test code begins, a line opening the test module
/// starts it, and is itself not read.
pub open spec fn reached_lines(ls: Seq<Seq<u8>>, inside: bool, n: nat) -> Seq<
    (nat, &'static str, &'static str),
>
    decreases ls.len(),
{
    if ls.len() == 0 {
        seq![]
    } else if !inside {
        reached_lines(ls.drop_first(), opens_tests(ls[0]), n + 1)
    } else {
        line_reaches(ls[0], n, forbidden_count() as int) + reached_lines(ls.drop_first(), true, n + 1)
    }
}

/// What a list of reached surfaces says, as the checks state it.
pub open spec fn reach_view(v: Seq<(usize, &'static str, &'static str)>) -> Seq<
    (nat, &'static str, &'static str),
> {
    Seq::new(v.len(), |i: int| (v[i].0 as nat, v[i].1, v[i].2))
}

fn line_opens_tests(s: &[u8], start: usize, end: usize) -> (r: bool)
    requires
        start <= end <= s@.len(),
    ensures
        r == opens_tests(s@.subrange(start as int, end as int)),
{
    let (a, _) = trim_start_range(s, start, end);
    let t = copy_range(s, a, end);
    starts_with_exec(t.as_slice(), "#[cfg(test)]".as_bytes())
}

fn push_line_reaches(
    out: &mut Vec<(usize, &'static str, &'static str)>,
    line: &[u8],
    n: usize,
    surfaces: &Vec<Forbidden>,
)
    requires
        surfaces@.len() == forbidden_count(),
        forall|k: int| 0 <= k < surfaces@.len() ==> #[trigger] surfaces@[k] == forbidden(k),
    ensures
        reach_view(final(out)@) == reach_view(old(out)@) + line_reaches(
            line@,
            n as nat,
            forbidden_count() as int,
        ),
{
    let ghost start = reach_view(out@);
    let mut k: usize = 0;
    while k < surfaces.len()
        invariant
            0 <= k <= surfaces@.len(),
            surfaces@.len() == forbidden_count(),
            forall|j: int| 0 <= j < surfaces@.len() ==> #[trigger] surfaces@[j] == forbidden(j),
            reach_view(out@) == start + line_reaches(line@, n as nat, k as int),
        decreases surfaces@.len() - k,
    {
        let f = surfaces[k];
        assert(f == forbidden(k as int));
        if contains_exec(line, f.spelling.as_bytes()) {
            let ghost before = reach_view(out@);
            out.push((n, f.spelling, f.rule));
            assert(reach_view(out@) =~= before.push((n as nat, f.spelling, f.rule)));
        }
        k = k + 1;
    }
}

/// Every forbidden surface the test code in the bytes of a text reaches.
pub fn reached_in(text: &[u8], whole: bool) -> (r: Vec<(usize, &'static str, &'static str)>)
    requires
        text@.len() < usize::MAX,
    ensures
        reach_view(r@) == reached_lines(lines(text@), whole, 1),
{
    let surfaces = forbidden_surfaces();
    let n = text.len();
    let mut out: Vec<(usize, &'static str, &'static str)> = Vec::new();
    let mut at: usize = 0;
    let mut number: usize = 1;
    let mut inside = whole;
    assert(text@.skip(0) =~= text@);
    while at < n
        invariant
            n == text@.len(),
            n < usize::MAX,
            at <= n,
            1 <= number <= at + 1,
            surfaces@.len() == forbidden_count(),
            forall|k: int| 0 <= k < surfaces@.len() ==> #[trigger] surfaces@[k] == forbidden(k),
            reach_view(out@) + reached_lines(lines(text@.skip(at as int)), inside, number as nat)
                == reached_lines(lines(text@), whole, 1),
        decreases n - at,
    {
        let span = line_at(text, at);
        let ghost ls = lines(text@.skip(at as int));
        let ghost one = text@.subrange(at as int, span.end as int);
        assert(ls[0] == one);
        assert(ls.drop_first() =~= lines(text@.skip(span.next as int)));
        if !inside {
            inside = line_opens_tests(text, span.start, span.end);
        } else {
            let ghost before = reach_view(out@);
            let line = copy_range(text, span.start, span.end);
            push_line_reaches(&mut out, line.as_slice(), number, &surfaces);
            assert(reach_view(out@) + reached_lines(lines(text@.skip(span.next as int)), true, (
            number + 1) as nat) =~= before + reached_lines(ls, true, number as nat));
        }
        at = span.next;
        number = number + 1;
    }
    assert(text@.skip(at as int) =~= Seq::<u8>::empty());
    assert(lines(text@.skip(at as int)) =~= Seq::<Seq<u8>>::empty());
    assert(reach_view(out@) =~= reached_lines(lines(text@), whole, 1));
    out
}

/// Every forbidden surface the test code in `text` reaches, with its line.
///
/// Where `whole` is false, the test code is taken to start at the first
/// `#[cfg(test)]` and run to the end of the file. That is a convention rather
/// than a parse, and it is the convention this repository follows.
pub fn reached(text: &str, whole: bool) -> (r: Vec<(usize, &'static str, &'static str)>)
    requires
        text.spec_bytes().len() < usize::MAX,
    ensures
        reach_view(r@) == reached_lines(lines(text.spec_bytes()), whole, 1),
{
    reached_in(text.as_bytes(), whole)
}

// ---------------------------------------------------------------------------
// The check.
/// One surface a file reaches, as a refusal names it.
pub open spec fn reach_line(name: Seq<u8>, h: (nat, &'static str, &'static str)) -> Seq<u8> {
    lit("  ") + name + lit(":") + decimal(h.0) + lit("  ") + lit(h.1) + lit("\n      ") + lit(h.2)
}

/// Every surface a file reaches, as a refusal names them.
pub open spec fn reach_lines(name: Seq<u8>, hs: Seq<(nat, &'static str, &'static str)>) -> Seq<
    Seq<u8>,
>
    decreases hs.len(),
{
    if hs.len() == 0 {
        seq![]
    } else {
        reach_lines(name, hs.drop_last()).push(reach_line(name, hs.last()))
    }
}

/// What the walk over a tree found.
pub struct HeadlessTally {
    pub offences: Seq<Seq<u8>>,
    pub read: nat,
}

/// The walk over the first files of a tree: each Rust file whose working
/// copy reads as text is read, and its test code searched.
pub open spec fn tally_headless(fs: Seq<FileView>) -> HeadlessTally
    decreases fs.len(),
{
    if fs.len() == 0 {
        HeadlessTally { offences: seq![], read: 0 }
    } else {
        let t = tally_headless(fs.drop_last());
        let f = fs.last();
        if !rust_path(f.name) {
            t
        } else {
            match text_of(f) {
                None => t,
                Some(b) => HeadlessTally {
                    offences: t.offences + reach_lines(
                        f.name,
                        reached_lines(lines(b), test_path(f.name), 1),
                    ),
                    read: t.read + 1,
                },
            }
        }
    }
}

/// What the refusal says after the surfaces it names.
pub const HEADLESS_REPAIR: &'static str = "A test that genuinely needs one of these is not a test in this suite. It moves\nto the harness for what needs a network or a long run, and the move is the repair\nrather than an exception.\n";

/// What the check finds in a tree.
pub open spec fn headless_verdict(listing: Result<Seq<FileView>, Seq<u8>>) -> Verdict {
    match listing {
        Err(why) => Verdict::CouldNotJudge(why),
        Ok(fs) => {
            let t = tally_headless(fs);
            if t.offences.len() == 0 {
                Verdict::Nothing(
                    Some(decimal(t.read) + lit(" tracked Rust file(s) read, test code only")),
                )
            } else {
                Verdict::Refused(
                    decimal(t.offences.len()) + lit(" thing(s) a test may not reach:\n\n")
                        + each_line(t.offences) + lit(HEADLESS_REPAIR),
                )
            }
        },
    }
}

fn push_reach_lines(
    out: &mut Vec<Vec<u8>>,
    name: &[u8],
    found: &Vec<(usize, &'static str, &'static str)>,
)
    ensures
        views(final(out)@) == views(old(out)@) + reach_lines(name@, reach_view(found@)),
{
    let ghost start = views(out@);
    let mut i: usize = 0;
    while i < found.len()
        invariant
            0 <= i <= found@.len(),
            views(out@) == start + reach_lines(name@, reach_view(found@).take(i as int)),
        decreases found@.len() - i,
    {
        let (line, spelling, rule) = found[i];
        let mut one: Vec<u8> = Vec::new();
        push_str(&mut one, "  ");
        push_all(&mut one, name);
        push_str(&mut one, ":");
        push_decimal(&mut one, line);
        push_str(&mut one, "  ");
        push_str(&mut one, spelling);
        push_str(&mut one, "\n      ");
        push_str(&mut one, rule);
        let ghost before = views(out@);
        out.push(one);
        proof {
            assert(views(out@) =~= before.push(one@));
            let v = reach_view(found@);
            assert(v.take(i + 1).drop_last() =~= v.take(i as int));
            assert(v.take(i + 1).last() == v[i as int]);
            assert(one@ =~= reach_line(name@, v[i as int]));
        }
        i = i + 1;
    }
    assert(reach_view(found@).take(found@.len() as int) =~= reach_view(found@));
}

/// Refuses a test that reaches a surface the suite may not depend on.
pub fn a_test_reaches_nothing_it_may_not(listing: &Result<Vec<TrackedFile>, Vec<u8>>) -> (r:
    Judged)
    requires
        files_fit(listing_of(*listing)),
    ensures
        r@ == headless_verdict(listing_of(*listing)),
{
    let files = match listing {
        Err(why) => {
            return Judged::CouldNotJudge(copy_all(why.as_slice()));
        },
        Ok(files) => files,
    };
    let ghost fs = files_of(files@);
    let mut offences: Vec<Vec<u8>> = Vec::new();
    let mut read: usize = 0;
    let mut i: usize = 0;
    while i < files.len()
        invariant
            0 <= i <= files@.len(),
            fs == files_of(files@),
            files_fit(Ok(fs)),
            views(offences@) == tally_headless(fs.take(i as int)).offences,
            read == tally_headless(fs.take(i as int)).read,
            read <= i,
        decreases files@.len() - i,
    {
        let f = &files[i];
        assert(fs.take(i + 1).drop_last() =~= fs.take(i as int));
        assert(fs.take(i + 1).last() == fs[i as int]);
        if is_rust_bytes(f.name.as_slice()) {
            match &f.bytes {
                Err(_) => {},
                Ok(bytes) => {
                    if is_utf8(bytes.as_slice()) {
                        read = read + 1;
                        assert(fs[i as int].bytes == Ok::<Seq<u8>, Seq<u8>>(bytes@));
                        let whole = is_a_test_file_bytes(f.name.as_slice());
                        let found = reached_in(bytes.as_slice(), whole);
                        push_reach_lines(&mut offences, f.name.as_slice(), &found);
                    }
                },
            }
        }
        i = i + 1;
    }
    assert(fs.take(files@.len() as int) =~= fs);
    if offences.len() == 0 {
        let mut note: Vec<u8> = Vec::new();
        push_decimal(&mut note, read);
        push_str(&mut note, " tracked Rust file(s) read, test code only");
        return Judged::Nothing(Some(note));
    }
    let mut why: Vec<u8> = Vec::new();
    push_decimal(&mut why, offences.len());
    push_str(&mut why, " thing(s) a test may not reach:\n\n");
    push_lines(&mut why, &offences);
    push_str(&mut why, HEADLESS_REPAIR);
    Judged::Refused(why)
}


proof fn lemma_line_reaches_surface(line: Seq<u8>, n: nat, k: int, m: int)
    requires
        0 <= k < m,
        contains(line, lit(forbidden(k).spelling)),
    ensures
        line_reaches(line, n, m).len() > 0,
    decreases m,
{
    if k < m - 1 {
        lemma_line_reaches_surface(line, n, k, m - 1);
    }
}

proof fn lemma_whole_text_reaches(ls: Seq<Seq<u8>>, n: nat, j: int, k: int)
    requires
        0 <= j < ls.len(),
        0 <= k < forbidden_count(),
        contains(ls[j], lit(forbidden(k).spelling)),
    ensures
        reached_lines(ls, true, n).len() > 0,
    decreases ls.len(),
{
    if j == 0 {
        lemma_line_reaches_surface(ls[0], n, k, forbidden_count() as int);
    } else {
        assert(ls.drop_first()[j - 1] == ls[j]);
        lemma_whole_text_reaches(ls.drop_first(), n + 1, j - 1, k);
    }
}

proof fn lemma_reach_lines_len(name: Seq<u8>, hs: Seq<(nat, &'static str, &'static str)>)
    ensures
        reach_lines(name, hs).len() == hs.len(),
    decreases hs.len(),
{
    if hs.len() > 0 {
        lemma_reach_lines_len(name, hs.drop_last());
    }
}

proof fn lemma_offences_kept(fs: Seq<FileView>, i: int)
    requires
        0 <= i < fs.len(),
        rust_path(fs[i].name),
        text_of(fs[i]) matches Some(b) && reached_lines(lines(b), test_path(fs[i].name), 1).len() > 0,
    ensures
        tally_headless(fs).offences.len() > 0,
    decreases fs.len(),
{
    let init = fs.drop_last();
    if i < fs.len() - 1 {
        assert(init[i] == fs[i]);
        lemma_offences_kept(init, i);
    } else {
        let b = text_of(fs[i])->0;
        lemma_reach_lines_len(fs[i].name, reached_lines(lines(b), test_path(fs[i].name), 1));
    }
}

/// A Rust file under a `tests/` directory is test code from its first line
/// to its last: a forbidden spelling on any line of it refuses the tree,
/// whether or not the file has a line opening a test module.
pub proof fn lemma_a_file_under_tests_is_read_whole(fs: Seq<FileView>, i: int, j: int, k: int)
    requires
        0 <= i < fs.len(),
        rust_path(fs[i].name),
        test_path(fs[i].name),
        fs[i].bytes is Ok,
        valid_utf8(fs[i].bytes->Ok_0),
        0 <= j < lines(fs[i].bytes->Ok_0).len(),
        0 <= k < forbidden_count(),
        contains(lines(fs[i].bytes->Ok_0)[j], lit(forbidden(k).spelling)),
    ensures
        headless_verdict(Ok(fs)) is Refused,
{
    let b = fs[i].bytes->Ok_0;
    lemma_whole_text_reaches(lines(b), 1, j, k);
    lemma_offences_kept(fs, i);
}

proof fn lemma_test_module_reaches(ls: Seq<Seq<u8>>, n: nat, p: int, j: int, k: int)
    requires
        0 <= p < j < ls.len(),
        opens_tests(ls[p]),
        0 <= k < forbidden_count(),
        contains(ls[j], lit(forbidden(k).spelling)),
    ensures
        reached_lines(ls, false, n).len() > 0,
    decreases ls.len(),
{
    let rest = ls.drop_first();
    assert(rest[j - 1] == ls[j]);
    if p == 0 {
        lemma_whole_text_reaches(rest, n + 1, j - 1, k);
    } else {
        assert(rest[p - 1] == ls[p]);
        if opens_tests(ls[0]) {
            lemma_whole_text_reaches(rest, n + 1, j - 1, k);
        } else {
            lemma_test_module_reaches(rest, n + 1, p - 1, j - 1, k);
        }
    }
}

/// In any Rust file, the lines after one that opens the test module are
/// test code: a forbidden spelling on any of them refuses the tree.
pub proof fn lemma_the_test_module_is_read(fs: Seq<FileView>, i: int, p: int, j: int, k: int)
    requires
        0 <= i < fs.len(),
        rust_path(fs[i].name),
        fs[i].bytes is Ok,
        valid_utf8(fs[i].bytes->Ok_0),
        0 <= p < j < lines(fs[i].bytes->Ok_0).len(),
        opens_tests(lines(fs[i].bytes->Ok_0)[p]),
        0 <= k < forbidden_count(),
        contains(lines(fs[i].bytes->Ok_0)[j], lit(forbidden(k).spelling)),
    ensures
        headless_verdict(Ok(fs)) is Refused,
{
    let b = fs[i].bytes->Ok_0;
    if test_path(fs[i].name) {
        lemma_whole_text_reaches(lines(b), 1, j, k);
    } else {
        lemma_test_module_reaches(lines(b), 1, p, j, k);
    }
    lemma_offences_kept(fs, i);
}
} // verus!
