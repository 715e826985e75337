//! The parts a run holds, in the order they run, and the run itself as the
//! decisions it makes: which part is executed next, when the run stops, and
//! what it writes as it goes.
//!
//! The set of parts lives here and nowhere else. A document that listed them
//! would drift against this file the first time a part is added.
//!
//! Refusal surface. This file decides which parts a run reaches, what a
//! part's result makes of it, and what the run's verdict is.

use vstd::prelude::*;
use crate::Exit;
use crate::report::{
    Happened, Outcome, Reported, line, outcomes, report_line, stops, tail, tail_of,
    verdict, verdict_of,
};
use crate::text::{lit, push_all, push_str};
use crate::tree::{Judged, Verdict};

verus! {

/// A check this repository owns, run in this process against the tree.
#[derive(Debug, Clone, Copy, PartialEq, Eq, Structural)]
pub enum CheckName {
    NoCarriageReturn,
    EveryGuardIsAccountedFor,
    ATestReachesNothingItMayNot,
    NoInvariantIsBroken,
    TheRefusalSurfaceIsNamed,
    EveryAcceptedFindingIsRecorded,
    EveryRecordIsInTheCanonicalForm,
}

/// How a part is run.
pub enum Runs {
    /// A command, the program first and its arguments after, run with the
    /// workspace root as the working directory.
    Command(Vec<&'static str>),
    /// A check this repository owns.
    Check(CheckName),
    /// Nothing yet. The part is declared anyway, so that a run cannot be read
    /// as covering what the part names, and the sentence says what would make
    /// it run.
    NotBuilt(&'static str),
}

/// How a part is run, as the table states it.
pub enum Way {
    Command(Seq<&'static str>),
    Check(CheckName),
    NotBuilt(&'static str),
}

impl View for Runs {
    type V = Way;

    open spec fn view(&self) -> Way {
        match self {
            Runs::Command(argv) => Way::Command(argv@),
            Runs::Check(c) => Way::Check(*c),
            Runs::NotBuilt(w) => Way::NotBuilt(*w),
        }
    }
}

/// A part of the run.
pub struct Part {
    /// What the part is called in the report.
    pub name: &'static str,
    /// One line saying what the part examines, printed beside its verdict.
    pub examines: &'static str,
    /// How it is run.
    pub runs: Runs,
}

/// How many parts there are.
pub open spec fn part_count() -> nat {
    11
}

/// The name of part `i`.
pub open spec fn part_name(i: int) -> &'static str {
    if i == 0 {
        "line-endings"
    } else if i == 1 {
        "guards"
    } else if i == 2 {
        "headless"
    } else if i == 3 {
        "invariants"
    } else if i == 4 {
        "surface"
    } else if i == 5 {
        "findings"
    } else if i == 6 {
        "format"
    } else if i == 7 {
        "lint"
    } else if i == 8 {
        "canonical"
    } else if i == 9 {
        "schema"
    } else {
        "tests"
    }
}

/// What part `i` examines.
pub open spec fn part_examines(i: int) -> &'static str {
    if i == 0 {
        "every tracked text file in the working copy, for a carriage return"
    } else if i == 1 {
        "every tracked text file, for a character that reorders what a reader sees, and the guards only the server runs"
    } else if i == 2 {
        "the test code in every tracked Rust file, for a surface a test may not reach"
    } else if i == 3 {
        "every tracked file a record names, for a rule no schema can express"
    } else if i == 4 {
        "every tracked Rust file, for whether it says it decides refusals"
    } else if i == 5 {
        "every tracked file under crates/ and .github/, for a finding turned off with no record"
    } else if i == 6 {
        "every Rust file in the workspace, against the form rustfmt writes"
    } else if i == 7 {
        "every crate and every test target, at the workspace lint levels"
    } else if i == 8 {
        "every tracked record under register/, against the form the register is stored in"
    } else if i == 9 {
        "every file under register/, against the schema for its row kind"
    } else {
        "the test suite of every crate in the workspace"
    }
}

/// How part `i` is run.
pub open spec fn part_runs(i: int) -> Way {
    if i == 0 {
        Way::Check(CheckName::NoCarriageReturn)
    } else if i == 1 {
        Way::Check(CheckName::EveryGuardIsAccountedFor)
    } else if i == 2 {
        Way::Check(CheckName::ATestReachesNothingItMayNot)
    } else if i == 3 {
        Way::Check(CheckName::NoInvariantIsBroken)
    } else if i == 4 {
        Way::Check(CheckName::TheRefusalSurfaceIsNamed)
    } else if i == 5 {
        Way::Check(CheckName::EveryAcceptedFindingIsRecorded)
    } else if i == 6 {
        Way::Command(seq!["cargo", "fmt", "--all", "--check", "--", "--color=never"])
    } else if i == 7 {
        Way::Command(seq!["cargo", "clippy", "--workspace", "--all-targets", "--locked"])
    } else if i == 8 {
        Way::Check(CheckName::EveryRecordIsInTheCanonicalForm)
    } else if i == 9 {
        Way::NotBuilt("a schema check exists and there is a schema under schema/ for it to read")
    } else {
        Way::Command(seq!["cargo", "test", "--workspace", "--locked"])
    }
}

fn part(name: &'static str, examines: &'static str, runs: Runs) -> (r: Part)
    ensures
        r.name == name,
        r.examines == examines,
        r.runs@ == runs@,
{
    Part { name, examines, runs }
}

/// Every part, in the order they run.
///
/// The order is cheapest first among the parts that read the same files, so
/// a run ends at the thing to fix rather than after the slowest part.
/// Formatting comes before linting because a reformat changes the source the
/// linter reads.
pub fn parts() -> (r: Vec<Part>)
    ensures
        r@.len() == part_count(),
        forall|i: int|
            0 <= i < r@.len() ==> {
                &&& (#[trigger] r@[i]).name == part_name(i)
                &&& r@[i].examines == part_examines(i)
                &&& r@[i].runs@ == part_runs(i)
            },
{
    let mut r: Vec<Part> = Vec::new();
    r.push(part(
        "line-endings",
        "every tracked text file in the working copy, for a carriage return",
        Runs::Check(CheckName::NoCarriageReturn),
    ));
    r.push(part(
        "guards",
        "every tracked text file, for a character that reorders what a reader sees, and the guards only the server runs",
        Runs::Check(CheckName::EveryGuardIsAccountedFor),
    ));
    r.push(part(
        "headless",
        "the test code in every tracked Rust file, for a surface a test may not reach",
        Runs::Check(CheckName::ATestReachesNothingItMayNot),
    ));
    r.push(part(
        "invariants",
        "every tracked file a record names, for a rule no schema can express",
        Runs::Check(CheckName::NoInvariantIsBroken),
    ));
    r.push(part(
        "surface",
        "every tracked Rust file, for whether it says it decides refusals",
        Runs::Check(CheckName::TheRefusalSurfaceIsNamed),
    ));
    r.push(part(
        "findings",
        "every tracked file under crates/ and .github/, for a finding turned off with no record",
        Runs::Check(CheckName::EveryAcceptedFindingIsRecorded),
    ));
    // `--color=never` is passed through to rustfmt, which colours its diff
    // whether or not anything is watching, and terminal escapes in a quoted
    // refusal are noise a reader has to look past.
    let mut fmt: Vec<&'static str> = Vec::new();
    fmt.push("cargo");
    fmt.push("fmt");
    fmt.push("--all");
    fmt.push("--check");
    fmt.push("--");
    fmt.push("--color=never");
    r.push(part(
        "format",
        "every Rust file in the workspace, against the form rustfmt writes",
        Runs::Command(fmt),
    ));
    let mut clippy: Vec<&'static str> = Vec::new();
    clippy.push("cargo");
    clippy.push("clippy");
    clippy.push("--workspace");
    clippy.push("--all-targets");
    clippy.push("--locked");
    r.push(part(
        "lint",
        "every crate and every test target, at the workspace lint levels",
        Runs::Command(clippy),
    ));
    r.push(part(
        "canonical",
        "every tracked record under register/, against the form the register is stored in",
        Runs::Check(CheckName::EveryRecordIsInTheCanonicalForm),
    ));
    r.push(part(
        "schema",
        "every file under register/, against the schema for its row kind",
        Runs::NotBuilt("a schema check exists and there is a schema under schema/ for it to read"),
    ));
    let mut test: Vec<&'static str> = Vec::new();
    test.push("cargo");
    test.push("test");
    test.push("--workspace");
    test.push("--locked");
    r.push(part(
        "tests",
        "the test suite of every crate in the workspace",
        Runs::Command(test),
    ));
    assert(fmt@ =~= seq!["cargo", "fmt", "--all", "--check", "--", "--color=never"]);
    assert(clippy@ =~= seq!["cargo", "clippy", "--workspace", "--all-targets", "--locked"]);
    assert(test@ =~= seq!["cargo", "test", "--workspace", "--locked"]);
    r
}

/// The longest of the first `k` part names, in bytes.
pub open spec fn widest(k: int) -> nat
    decreases k,
{
    if k <= 0 {
        0
    } else {
        let w = widest(k - 1);
        let n = lit(part_name(k - 1)).len();
        if n > w {
            n
        } else {
            w
        }
    }
}

/// The width the part names are padded to, so the verdicts line up.
pub fn width() -> (r: usize)
    ensures
        r == widest(part_count() as int),
{
    let all = parts();
    let mut w: usize = 0;
    let mut i: usize = 0;
    while i < all.len()
        invariant
            0 <= i <= all@.len(),
            all@.len() == part_count(),
            forall|j: int| 0 <= j < all@.len() ==> (#[trigger] all@[j]).name == part_name(j),
            w == widest(i as int),
        decreases all@.len() - i,
    {
        let n = all[i].name.as_bytes().len();
        if n > w {
            w = n;
        }
        i = i + 1;
    }
    w
}

// ---------------------------------------------------------------------------
// What a part's result makes of it.
/// What a check's verdict makes of its part: one that found nothing ran,
/// with its note; one that refused failed, with its reason; one that could
/// not judge could not be started, so the run could not judge either.
pub fn outcome_of_check(judged: Judged, took: Vec<u8>) -> (o: Outcome)
    ensures
        o@ == match judged@ {
            Verdict::Nothing(n) => Happened::Ran(took@, n),
            Verdict::Refused(s) => Happened::Failed(took@, s),
            Verdict::CouldNotJudge(s) => Happened::Unstartable(s),
        },
{
    match judged {
        Judged::Nothing(note) => Outcome::Ran(took, note),
        Judged::Refused(why) => Outcome::Failed(took, why),
        Judged::CouldNotJudge(why) => Outcome::Unstartable(why),
    }
}

/// The words of a command line, joined by single spaces.
pub open spec fn joined(words: Seq<&'static str>) -> Seq<u8>
    decreases words.len(),
{
    if words.len() == 0 {
        seq![]
    } else if words.len() == 1 {
        lit(words[0])
    } else {
        joined(words.drop_last()) + lit(" ") + lit(words.last())
    }
}

/// The words of a command line, joined by single spaces.
pub fn join_words(words: &Vec<&'static str>) -> (r: Vec<u8>)
    ensures
        r@ == joined(words@),
{
    let mut r: Vec<u8> = Vec::new();
    let mut i: usize = 0;
    while i < words.len()
        invariant
            0 <= i <= words@.len(),
            r@ == joined(words@.take(i as int)),
        decreases words@.len() - i,
    {
        let ghost before = r@;
        if i > 0 {
            push_str(&mut r, " ");
        }
        push_str(&mut r, words[i]);
        proof {
            let t = words@.take(i + 1);
            assert(t.drop_last() =~= words@.take(i as int));
            assert(t.last() == words@[i as int]);
            if i == 0 {
                assert(before =~= Seq::<u8>::empty());
                assert(r@ =~= lit(words@[0]));
            }
        }
        i = i + 1;
    }
    assert(words@.take(words@.len() as int) =~= words@);
    r
}

/// What a command's end makes of its part: one that could not be started
/// could not be started, and says its command line and why; one that exited
/// with failure failed, with its standard output then its standard error;
/// one that succeeded ran, with no note.
///
/// `finished` is whether the command succeeded with what it wrote to its
/// standard output and its standard error, or why it could not be started.
pub fn outcome_of_command(
    argv: &Vec<&'static str>,
    finished: Result<(bool, Vec<u8>, Vec<u8>), Vec<u8>>,
    took: Vec<u8>,
) -> (o: Outcome)
    requires
        argv@.len() >= 1,
    ensures
        match finished {
            Err(why) => o@ == Happened::Unstartable(joined(argv@) + lit(": ") + why@),
            Ok((succeeded, out, err)) => if succeeded {
                o@ == Happened::Ran(took@, None)
            } else {
                o@ == Happened::Failed(took@, out@ + err@)
            },
        },
{
    match finished {
        Err(why) => {
            let mut said = join_words(argv);
            push_str(&mut said, ": ");
            push_all(&mut said, why.as_slice());
            Outcome::Unstartable(said)
        },
        Ok((succeeded, out, err)) => {
            if succeeded {
                Outcome::Ran(took, None)
            } else {
                let mut said = out;
                push_all(&mut said, err.as_slice());
                Outcome::Failed(took, said)
            }
        },
    }
}

// ---------------------------------------------------------------------------
// The run.
/// Whether the outcomes of a run so far are ones a run can have: the run
/// stops at the first part that refused or could not be started, and every
/// part after that one is not reached.
pub open spec fn stops_at_the_first_failure(hs: Seq<Happened>) -> bool {
    forall|i: int, j: int| 0 <= i < j < hs.len() && stops(#[trigger] hs[i]) ==> #[trigger] hs[j]
        is NotReached
}

/// Whether a run has stopped: some part so far refused or could not start.
pub open spec fn has_stopped(hs: Seq<Happened>) -> bool {
    exists|i: int| 0 <= i < hs.len() && stops(#[trigger] hs[i])
}

/// A run in progress: the parts it has passed, and whether it has stopped.
pub struct Progress {
    pub results: Vec<Reported>,
    pub stopped: bool,
}

impl Progress {
    /// The run is one a run can be.
    pub open spec fn wf(self) -> bool {
        &&& self.stopped == has_stopped(outcomes(self.results@))
        &&& stops_at_the_first_failure(outcomes(self.results@))
    }

    /// A run that has passed no part.
    pub fn new() -> (p: Progress)
        ensures
            p.wf(),
            p.results@.len() == 0,
            !p.stopped,
    {
        let p = Progress { results: Vec::new(), stopped: false };
        assert(outcomes(p.results@) =~= Seq::<Happened>::empty());
        p
    }

    /// Whether the next part is to be executed: the run has not stopped.
    pub fn executes_next(&self) -> (r: bool)
        ensures
            r == !self.stopped,
    {
        !self.stopped
    }

    /// Records what the next part did and says the line the report writes
    /// for it. A run that has stopped records the part as not reached,
    /// whatever it is handed.
    pub fn record(&mut self, name: &'static str, examines: &'static str, executed: Outcome, width: usize) -> (r: Vec<u8>)
        requires
            old(self).wf(),
        ensures
            final(self).wf(),
            final(self).results@.len() == old(self).results@.len() + 1,
            forall|i: int| 0 <= i < old(self).results@.len() ==> final(self).results@[i]
                == old(self).results@[i],
            forall|i: int| 0 <= i < old(self).results@.len() ==> outcomes(final(self).results@)[i]
                == outcomes(old(self).results@)[i],
            final(self).results@.last().name == name,
            final(self).results@.last().examines == examines,
            final(self).results@.last().outcome@ == (if old(self).stopped {
                Happened::NotReached
            } else {
                executed@
            }),
            final(self).stopped == (old(self).stopped || stops(executed@)),
            r@ == report_line(final(self).results@.last()@, width as nat),
    {
        let ghost before = outcomes(self.results@);
        let outcome = if self.stopped {
            Outcome::NotReached
        } else {
            executed
        };
        let stopping = match &outcome {
            Outcome::Failed(..) => true,
            Outcome::Unstartable(_) => true,
            _ => false,
        };
        let result = Reported { name, examines, outcome };
        let r = line(&result, width);
        let ghost h = result.outcome@;
        self.results.push(result);
        let ghost after = outcomes(self.results@);
        assert(after =~= before.push(h));
        if stopping {
            self.stopped = true;
        }
        proof {
            assert(after[after.len() - 1] == h);
            if stopping {
                assert(stops(after[after.len() - 1]));
                assert(has_stopped(after));
            } else {
                assert(!stops(h));
                if has_stopped(before) {
                    let i = choose|i: int| 0 <= i < before.len() && stops(#[trigger] before[i]);
                    assert(after[i] == before[i]);
                    assert(has_stopped(after));
                }
                if has_stopped(after) {
                    let i = choose|i: int| 0 <= i < after.len() && stops(#[trigger] after[i]);
                    assert(i < before.len());
                    assert(after[i] == before[i]);
                    assert(has_stopped(before));
                }
            }
            assert forall|i: int, j: int|
                0 <= i < j < after.len() && stops(#[trigger] after[i]) implies #[trigger] after[j]
                is NotReached by {
                if j < before.len() {
                    assert(before[i] == after[i] && before[j] == after[j]);
                } else {
                    assert(before[i] == after[i]);
                    assert(has_stopped(before));
                }
            }
        }
        r
    }

    /// The closing line of the run and its verdict.
    pub fn close(&self) -> (r: (Vec<u8>, Exit))
        ensures
            r.0@ == tail_of(outcomes(self.results@)),
            r.1 == verdict_of(outcomes(self.results@)),
    {
        (tail(&self.results), verdict(&self.results))
    }
}

} // verus!
