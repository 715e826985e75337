//! The report a run writes: a line for each part, saying what it did, and a
//! closing count that says what the run covered rather than only whether it
//! was green.
//!
//! A part that ran, a part that was skipped, a part that refused, a part that
//! could not be started and a part the run never reached are five different
//! lines, and the last line counts all of them. A run that examined less than
//! the whole set therefore cannot be read as a run that examined everything
//! and found nothing.

use vstd::prelude::*;
use vstd::utf8::is_continuation_byte;
use crate::{Exit, exit_code};
use crate::text::{
    decimal, line_at, lines, lit, push_all, push_decimal, push_str, trim_end,
    trim_end_at,
};

verus! {

/// What a part did.
pub enum Outcome {
    /// It ran and refused nothing: the seconds it took, as written, and the
    /// note, where there is one, saying what the part did not reach.
    Ran(Vec<u8>, Option<Vec<u8>>),
    /// It did not run, and the sentence says what would make it.
    Skipped(&'static str),
    /// It ran and refused: the seconds it took, and everything it wrote.
    Failed(Vec<u8>, Vec<u8>),
    /// It could not be started at all, so nothing about its subject is known.
    Unstartable(Vec<u8>),
    /// The run stopped at an earlier failure and never got here.
    NotReached,
}

/// What a part did, as the report states it.
pub enum Happened {
    Ran(Seq<u8>, Option<Seq<u8>>),
    Skipped(Seq<u8>),
    Failed(Seq<u8>, Seq<u8>),
    Unstartable(Seq<u8>),
    NotReached,
}

impl View for Outcome {
    type V = Happened;

    open spec fn view(&self) -> Happened {
        match self {
            Outcome::Ran(took, Some(note)) => Happened::Ran(took@, Some(note@)),
            Outcome::Ran(took, None) => Happened::Ran(took@, None),
            Outcome::Skipped(would) => Happened::Skipped(lit(would)),
            Outcome::Failed(took, said) => Happened::Failed(took@, said@),
            Outcome::Unstartable(why) => Happened::Unstartable(why@),
            Outcome::NotReached => Happened::NotReached,
        }
    }
}

/// Whether a run stops after a part that did this: it refused, or it could
/// not be started.
pub open spec fn stops(h: Happened) -> bool {
    h is Failed || h is Unstartable
}

/// One part of the run, and what it did, once the run has passed it.
pub struct Reported {
    pub name: &'static str,
    pub examines: &'static str,
    pub outcome: Outcome,
}

/// A reported part, as the report states it.
pub struct Entry {
    pub name: Seq<u8>,
    pub examines: Seq<u8>,
    pub outcome: Happened,
}

impl View for Reported {
    type V = Entry;

    open spec fn view(&self) -> Entry {
        Entry { name: lit(self.name), examines: lit(self.examines), outcome: self.outcome@ }
    }
}

/// What each of a list of reported parts did.
pub open spec fn outcomes(rs: Seq<Reported>) -> Seq<Happened> {
    Seq::new(rs.len(), |i: int| rs[i].outcome@)
}

// ---------------------------------------------------------------------------
// Padding, by characters, as a format width counts them.
/// How many characters the UTF-8 bytes of `s` hold.
pub open spec fn char_count(s: Seq<u8>) -> nat
    decreases s.len(),
{
    if s.len() == 0 {
        0
    } else {
        char_count(s.drop_last()) + if is_continuation_byte(s.last()) {
            0nat
        } else {
            1nat
        }
    }
}

/// `n` spaces.
pub open spec fn spaces(n: nat) -> Seq<u8> {
    Seq::new(n, |i: int| 32u8)
}

/// `s` with spaces after it up to `width` characters.
pub open spec fn pad_right(s: Seq<u8>, width: nat) -> Seq<u8> {
    if char_count(s) < width {
        s + spaces((width - char_count(s)) as nat)
    } else {
        s
    }
}

/// `s` with spaces before it up to `width` characters.
pub open spec fn pad_left(s: Seq<u8>, width: nat) -> Seq<u8> {
    if char_count(s) < width {
        spaces((width - char_count(s)) as nat) + s
    } else {
        s
    }
}

fn char_count_exec(s: &[u8]) -> (r: usize)
    ensures
        r == char_count(s@),
{
    let mut c: usize = 0;
    let mut i: usize = 0;
    while i < s.len()
        invariant
            0 <= i <= s@.len(),
            c == char_count(s@.take(i as int)),
            c <= i,
        decreases s@.len() - i,
    {
        assert(s@.take(i + 1).drop_last() =~= s@.take(i as int));
        if !(0x80 <= s[i] && s[i] <= 0xBF) {
            c = c + 1;
        }
        i = i + 1;
    }
    assert(s@.take(s@.len() as int) =~= s@);
    c
}

/// Appends `n` spaces.
pub fn push_spaces(out: &mut Vec<u8>, n: usize)
    ensures
        final(out)@ == old(out)@ + spaces(n as nat),
{
    let ghost start = out@;
    let mut i: usize = 0;
    while i < n
        invariant
            0 <= i <= n,
            out@ == start + spaces(i as nat),
        decreases n - i,
    {
        out.push(32);
        i = i + 1;
        assert(out@ =~= start + spaces(i as nat));
    }
}

/// Appends `s`, with spaces after it up to `width` characters.
pub fn push_padded_right(out: &mut Vec<u8>, s: &[u8], width: usize)
    ensures
        final(out)@ == old(out)@ + pad_right(s@, width as nat),
{
    let c = char_count_exec(s);
    let ghost before = out@;
    push_all(out, s);
    if c < width {
        push_spaces(out, width - c);
        assert(out@ =~= before + pad_right(s@, width as nat));
    }
}

/// Appends `s`, with spaces before it up to `width` characters.
pub fn push_padded_left(out: &mut Vec<u8>, s: &[u8], width: usize)
    ensures
        final(out)@ == old(out)@ + pad_left(s@, width as nat),
{
    let c = char_count_exec(s);
    let ghost before = out@;
    if c < width {
        push_spaces(out, width - c);
    }
    push_all(out, s);
    assert(out@ =~= before + pad_left(s@, width as nat));
}

// ---------------------------------------------------------------------------
// One part's lines.
/// Each of `ls` on a line of its own, after `width` spaces and two more.
pub open spec fn indented(ls: Seq<Seq<u8>>, width: nat) -> Seq<u8>
    decreases ls.len(),
{
    if ls.len() == 0 {
        seq![]
    } else {
        indented(ls.drop_last(), width) + spaces(width) + lit("  ") + ls.last() + seq![10u8]
    }
}

/// The report line for one part, and for a failed one everything it wrote.
///
/// Nothing here varies between two runs over the same tree except the
/// seconds, which is what makes a second run comparable to a first.
pub open spec fn report_line(r: Entry, width: nat) -> Seq<u8> {
    let name = pad_right(r.name, width);
    match r.outcome {
        Happened::Ran(took, note) => name + lit("  ran      ") + pad_left(took, 7) + lit("  ")
            + r.examines + seq![10u8] + match note {
            Some(n) => indented(lines(n), width),
            None => seq![],
        },
        Happened::Skipped(would) => name + lit("  skipped          ") + r.examines + seq![10u8]
            + spaces(width) + lit("  runs when ") + would + seq![10u8],
        Happened::Failed(took, said) => name + lit("  refused  ") + pad_left(took, 7) + lit("  ")
            + r.examines + seq![10u8] + lit("\n") + r.name + lit(
            " refused. Everything it wrote:\n\n",
        ) + trim_end(said) + seq![10u8],
        Happened::Unstartable(why) => name + lit("  unknown          ") + r.examines + seq![10u8]
            + lit("\n") + r.name + lit(" could not be started, so nothing about that\n") + lit(
            "is known either way:\n\n",
        ) + why + lit("\n\n"),
        Happened::NotReached => name + lit("  not reached      ") + r.examines + seq![10u8],
    }
}

/// Appends each line of `note` after `width` spaces and two more.
fn push_indented(out: &mut Vec<u8>, note: &[u8], width: usize)
    ensures
        final(out)@ == old(out)@ + indented(lines(note@), width as nat),
{
    let ghost start = out@;
    let n = note.len();
    let mut at: usize = 0;
    let ghost mut done: Seq<Seq<u8>> = seq![];
    assert(note@.skip(0) =~= note@);
    while at < n
        invariant
            n == note@.len(),
            at <= n,
            lines(note@) == done + lines(note@.skip(at as int)),
            out@ == start + indented(done, width as nat),
        decreases n - at,
    {
        let span = line_at(note, at);
        let ghost one = note@.subrange(at as int, span.end as int);
        push_spaces(out, width);
        push_str(out, "  ");
        let mut i = span.start;
        while i < span.end
            invariant
                span.start <= i <= span.end <= note@.len(),
                out@ == start + indented(done, width as nat) + spaces(width as nat) + lit("  ")
                    + note@.subrange(span.start as int, i as int),
            decreases span.end - i,
        {
            out.push(note[i]);
            i = i + 1;
            assert(note@.subrange(span.start as int, i as int) =~= note@.subrange(
                span.start as int,
                i - 1,
            ).push(note@[i - 1]));
        }
        out.push(10);
        proof {
            assert(done.push(one).drop_last() =~= done);
            done = done.push(one);
            assert(lines(note@) =~= done + lines(note@.skip(span.next as int)));
            assert(out@ =~= start + indented(done, width as nat));
        }
        at = span.next;
    }
    assert(note@.skip(at as int) =~= Seq::<u8>::empty());
    assert(lines(note@.skip(at as int)) =~= Seq::<Seq<u8>>::empty());
    assert(lines(note@) =~= done);
}

/// The report line for one part, and for a failed one everything it wrote.
pub fn line(result: &Reported, width: usize) -> (r: Vec<u8>)
    ensures
        r@ == report_line(result@, width as nat),
{
    let mut line: Vec<u8> = Vec::new();
    let name = result.name.as_bytes();
    push_padded_right(&mut line, name, width);
    match &result.outcome {
        Outcome::Ran(took, note) => {
            push_str(&mut line, "  ran      ");
            push_padded_left(&mut line, took.as_slice(), 7);
            push_str(&mut line, "  ");
            push_str(&mut line, result.examines);
            line.push(10);
            match note {
                Some(n) => {
                    push_indented(&mut line, n.as_slice(), width);
                },
                None => {},
            }
        },
        Outcome::Skipped(would) => {
            push_str(&mut line, "  skipped          ");
            push_str(&mut line, result.examines);
            line.push(10);
            push_spaces(&mut line, width);
            push_str(&mut line, "  runs when ");
            push_str(&mut line, would);
            line.push(10);
        },
        Outcome::Failed(took, said) => {
            push_str(&mut line, "  refused  ");
            push_padded_left(&mut line, took.as_slice(), 7);
            push_str(&mut line, "  ");
            push_str(&mut line, result.examines);
            line.push(10);
            push_str(&mut line, "\n");
            push_str(&mut line, result.name);
            push_str(&mut line, " refused. Everything it wrote:\n\n");
            let end = trim_end_at(said.as_slice(), 0, said.len());
            assert(said@.subrange(0, said@.len() as int) =~= said@);
            let mut i: usize = 0;
            let ghost before = line@;
            while i < end
                invariant
                    0 <= i <= end <= said@.len(),
                    line@ == before + said@.subrange(0, i as int),
                decreases end - i,
            {
                line.push(said[i]);
                i = i + 1;
                assert(said@.subrange(0, i as int) =~= said@.subrange(0, i - 1).push(
                    said@[i - 1],
                ));
            }
            line.push(10);
        },
        Outcome::Unstartable(why) => {
            push_str(&mut line, "  unknown          ");
            push_str(&mut line, result.examines);
            line.push(10);
            push_str(&mut line, "\n");
            push_str(&mut line, result.name);
            push_str(&mut line, " could not be started, so nothing about that\n");
            push_str(&mut line, "is known either way:\n\n");
            push_all(&mut line, why.as_slice());
            push_str(&mut line, "\n\n");
        },
        Outcome::NotReached => {
            push_str(&mut line, "  not reached      ");
            push_str(&mut line, result.examines);
            line.push(10);
        },
    }
    proof {
        let e = result@;
        assert(line@ =~= report_line(e, width as nat));
    }
    line
}

// ---------------------------------------------------------------------------
// The closing count and the verdict.
/// How many parts did each of the five things.
pub struct Tally {
    pub ran: nat,
    pub skipped: nat,
    pub refused: nat,
    pub unknown: nat,
    pub not_reached: nat,
}

/// The count over what a run's parts did.
pub open spec fn tally(hs: Seq<Happened>) -> Tally
    decreases hs.len(),
{
    if hs.len() == 0 {
        Tally { ran: 0, skipped: 0, refused: 0, unknown: 0, not_reached: 0 }
    } else {
        let t = tally(hs.drop_last());
        match hs.last() {
            Happened::Ran(..) => Tally { ran: t.ran + 1, ..t },
            Happened::Skipped(_) => Tally { skipped: t.skipped + 1, ..t },
            Happened::Failed(..) => Tally { refused: t.refused + 1, ..t },
            Happened::Unstartable(_) => Tally { unknown: t.unknown + 1, ..t },
            Happened::NotReached => Tally { not_reached: t.not_reached + 1, ..t },
        }
    }
}

/// The verdict of a run, from what its parts did.
///
/// A part that could not be started outranks a refusal, because a run
/// holding one of each did not judge the subject that part was about.
pub open spec fn verdict_of(hs: Seq<Happened>) -> Exit {
    if exists|i: int| 0 <= i < hs.len() && hs[i] is Unstartable {
        Exit::CouldNotJudge
    } else if exists|i: int| 0 <= i < hs.len() && hs[i] is Failed {
        Exit::Refused
    } else {
        Exit::Clean
    }
}

/// The word the closing line opens with for a verdict.
pub open spec fn verdict_word(e: Exit) -> Seq<u8> {
    match e {
        Exit::Clean => lit("clean"),
        Exit::Refused => lit("refused"),
        Exit::CouldNotJudge => lit("could not judge"),
    }
}

/// The closing line of a run.
pub open spec fn tail_of(hs: Seq<Happened>) -> Seq<u8> {
    let t = tally(hs);
    lit("\n") + verdict_word(verdict_of(hs)) + lit(": ") + decimal(hs.len()) + lit(" part(s), ")
        + decimal(t.ran) + lit(" ran, ") + decimal(t.skipped) + lit(" skipped, ") + decimal(
        t.refused,
    ) + lit(" refused, ") + decimal(t.unknown) + lit(" could not be started, ") + decimal(
        t.not_reached,
    ) + lit(" not reached\n")
}

/// The verdict of a run, from what its parts did.
pub fn verdict(results: &Vec<Reported>) -> (r: Exit)
    ensures
        r == verdict_of(outcomes(results@)),
{
    let ghost hs = outcomes(results@);
    let mut i: usize = 0;
    while i < results.len()
        invariant
            0 <= i <= results@.len(),
            hs == outcomes(results@),
            forall|j: int| 0 <= j < i ==> !(hs[j] is Unstartable),
        decreases results@.len() - i,
    {
        if let Outcome::Unstartable(_) = &results[i].outcome {
            assert(hs[i as int] is Unstartable);
            return Exit::CouldNotJudge;
        }
        i = i + 1;
    }
    let mut i: usize = 0;
    while i < results.len()
        invariant
            0 <= i <= results@.len(),
            hs == outcomes(results@),
            forall|j: int| 0 <= j < results@.len() ==> !(hs[j] is Unstartable),
            forall|j: int| 0 <= j < i ==> !(hs[j] is Failed),
        decreases results@.len() - i,
    {
        if let Outcome::Failed(..) = &results[i].outcome {
            assert(hs[i as int] is Failed);
            return Exit::Refused;
        }
        i = i + 1;
    }
    Exit::Clean
}

/// The closing count, which says what the run covered rather than only
/// whether it was green.
pub fn tail(results: &Vec<Reported>) -> (r: Vec<u8>)
    ensures
        r@ == tail_of(outcomes(results@)),
{
    let ghost hs = outcomes(results@);
    let mut ran: usize = 0;
    let mut skipped: usize = 0;
    let mut refused: usize = 0;
    let mut unknown: usize = 0;
    let mut not_reached: usize = 0;
    let mut i: usize = 0;
    while i < results.len()
        invariant
            0 <= i <= results@.len(),
            hs == outcomes(results@),
            ran == tally(hs.take(i as int)).ran,
            skipped == tally(hs.take(i as int)).skipped,
            refused == tally(hs.take(i as int)).refused,
            unknown == tally(hs.take(i as int)).unknown,
            not_reached == tally(hs.take(i as int)).not_reached,
            ran + skipped + refused + unknown + not_reached == i,
        decreases results@.len() - i,
    {
        assert(hs.take(i + 1).drop_last() =~= hs.take(i as int));
        match &results[i].outcome {
            Outcome::Ran(..) => {
                ran = ran + 1;
            },
            Outcome::Skipped(_) => {
                skipped = skipped + 1;
            },
            Outcome::Failed(..) => {
                refused = refused + 1;
            },
            Outcome::Unstartable(_) => {
                unknown = unknown + 1;
            },
            Outcome::NotReached => {
                not_reached = not_reached + 1;
            },
        }
        i = i + 1;
    }
    assert(hs.take(results@.len() as int) =~= hs);
    let verdict = verdict(results);
    let mut out: Vec<u8> = Vec::new();
    push_str(&mut out, "\n");
    match verdict {
        Exit::Clean => push_str(&mut out, "clean"),
        Exit::Refused => push_str(&mut out, "refused"),
        Exit::CouldNotJudge => push_str(&mut out, "could not judge"),
    }
    push_str(&mut out, ": ");
    push_decimal(&mut out, results.len());
    push_str(&mut out, " part(s), ");
    push_decimal(&mut out, ran);
    push_str(&mut out, " ran, ");
    push_decimal(&mut out, skipped);
    push_str(&mut out, " skipped, ");
    push_decimal(&mut out, refused);
    push_str(&mut out, " refused, ");
    push_decimal(&mut out, unknown);
    push_str(&mut out, " could not be started, ");
    push_decimal(&mut out, not_reached);
    push_str(&mut out, " not reached\n");
    assert(out@ =~= tail_of(hs));
    out
}

/// Every part is counted in exactly one of the five classes, so the closing
/// line's counts add up to the number of parts.
pub proof fn lemma_the_tail_counts_every_part(hs: Seq<Happened>)
    ensures
        tally(hs).ran + tally(hs).skipped + tally(hs).refused + tally(hs).unknown + tally(
            hs,
        ).not_reached == hs.len(),
    decreases hs.len(),
{
    if hs.len() > 0 {
        lemma_the_tail_counts_every_part(hs.drop_last());
    }
}

/// A part that could not be started outranks a refusal: a run holding one of
/// each could not judge, whatever else its parts did.
pub proof fn lemma_an_unstartable_part_outranks_a_refusal(hs: Seq<Happened>, i: int)
    requires
        0 <= i < hs.len(),
        hs[i] is Unstartable,
    ensures
        verdict_of(hs) == Exit::CouldNotJudge,
        exit_code(verdict_of(hs)) == 2,
{
}

/// A run whose parts all ran or were skipped or never reached is clean, and
/// one with a refusal and nothing unstartable is refused.
pub proof fn lemma_a_refusal_is_refused_and_nothing_else_is_clean(hs: Seq<Happened>)
    requires
        forall|i: int| 0 <= i < hs.len() ==> !(#[trigger] hs[i] is Unstartable),
    ensures
        (exists|i: int| 0 <= i < hs.len() && #[trigger] hs[i] is Failed) ==> verdict_of(hs)
            == Exit::Refused,
        (forall|i: int| 0 <= i < hs.len() ==> !(#[trigger] hs[i] is Failed)) ==> verdict_of(hs)
            == Exit::Clean,
{
}

} // verus!
