//! The canonical form a record is stored in, and the check that holds the
//! register to it.
//!
//! Curation is the work here and the review of a diff is where a transposed
//! digit gets caught, so a record has one spelling and not several. A number
//! is written back exactly as its token stood in the file, never parsed and
//! printed again: `1.1200` and `1.12` are different claims about the fourth
//! figure.
//!
//! Refusal surface. This module decides whether a record is refused for the
//! form it is written in.

use vstd::prelude::*;
use vstd::string::StringSliceAdditionalSpecFns;
use vstd::utf8::valid_utf8;
use crate::form::{indent, render, write_node};
use crate::json::{Flaw, Node, Value, document, line_of};
use crate::paths::{has_extension, has_extension_exec};
use crate::scan::{Fault, Scan};
use crate::text::{
    copy_all, count_byte_exec, decimal, each_line, line_at, lines, lit, push_all, push_decimal, push_lines,
    push_str, same, starts_with, starts_with_exec, copy_range, views,
};
use crate::tree::{FileView, Judged, TrackedFile, Verdict, files_fit, files_of, listing_of};
use crate::unicode::is_utf8;

verus! {

/// Where the records this judges live.
pub const REGISTER: &'static str = "register/";

/// The extension a record carries.
pub const RECORD_EXTENSION: &'static str = "json";

/// What the refusal says after the records it names.
pub const FORM_IS_FIXED: &'static str = "\nThe form is fixed in docs/decisions/means-format-and-language.md and a record\nstored in it makes a diff that shows the field that changed rather than a\nreflow. Two spaces per level of nesting, one member or element to a line,\nobject keys in the order their names sort in, and a number written back exactly\nas its digits stood.\n";

/// The byte order mark.
pub open spec fn byte_order_mark() -> Seq<u8> {
    seq![0xEFu8, 0xBBu8, 0xBFu8]
}

/// What a file holds, or why it has no canonical form: a byte order mark is
/// refused first, then bytes that are not UTF-8, then anything the grammar
/// does not read as one value with nothing after it.
pub open spec fn reading(s: Seq<u8>) -> Result<Value, Flaw> {
    if starts_with(s, byte_order_mark()) {
        Err(Flaw::ByteOrderMark)
    } else if !valid_utf8(s) {
        Err(Flaw::NotText)
    } else {
        document(s)
    }
}

/// The canonical form of a file: its value written in the form at no depth,
/// and a line feed after it.
pub open spec fn canonical_form(s: Seq<u8>) -> Result<Seq<u8>, Flaw> {
    match reading(s) {
        Ok(v) => Ok(render(v, 0).push(10u8)),
        Err(e) => Err(e),
    }
}

/// The sentence a refusal prints for a fault.
pub open spec fn said(f: Flaw) -> Seq<u8> {
    match f {
        Flaw::NotText => lit("the bytes are not UTF-8"),
        Flaw::ByteOrderMark => lit("the file opens with a byte order mark, which the form excludes"),
        Flaw::Unreadable { line, why } => lit("line ") + decimal(line) + lit(": ") + lit(why),
        Flaw::TwoMembersWithOneName { line, name } => lit("line ") + decimal(line) + lit(
            ": two members named ",
        ) + name + lit(" in one object"),
    }
}

impl Fault {
    /// The sentence a refusal prints for this fault.
    pub fn says(&self) -> (r: Vec<u8>)
        ensures
            r@ == said(self.flaw()),
    {
        let mut out: Vec<u8> = Vec::new();
        match self {
            Fault::NotText => {
                push_str(&mut out, "the bytes are not UTF-8");
            },
            Fault::ByteOrderMark => {
                push_str(&mut out, "the file opens with a byte order mark, which the form excludes");
            },
            Fault::Unreadable { line, why } => {
                push_str(&mut out, "line ");
                push_decimal(&mut out, *line);
                push_str(&mut out, ": ");
                push_str(&mut out, why);
            },
            Fault::TwoMembersWithOneName { line, name } => {
                push_str(&mut out, "line ");
                push_decimal(&mut out, *line);
                push_str(&mut out, ": two members named ");
                push_all(&mut out, name.as_slice());
                push_str(&mut out, " in one object");
            },
        }
        out
    }
}

/// Reads the value a file holds.
pub fn read(bytes: &[u8]) -> (r: Result<Node, Fault>)
    requires
        bytes@.len() < usize::MAX,
    ensures
        match reading(bytes@) {
            Ok(v) => r matches Ok(n) && n.value() == v,
            Err(e) => r matches Err(f) && f.flaw() == e,
        },
{
    if bytes.len() >= 3 && bytes[0] == 0xEF && bytes[1] == 0xBB && bytes[2] == 0xBF {
        assert(bytes@.subrange(0, 3) =~= byte_order_mark());
        return Err(Fault::ByteOrderMark);
    }
    assert(!starts_with(bytes@, byte_order_mark())) by {
        if bytes@.len() >= 3 {
            if bytes@.subrange(0, 3) == byte_order_mark() {
                assert(bytes@.subrange(0, 3)[0] == bytes@[0]);
                assert(bytes@.subrange(0, 3)[1] == bytes@[1]);
                assert(bytes@.subrange(0, 3)[2] == bytes@[2]);
            }
        }
    }
    if !is_utf8(bytes) {
        return Err(Fault::NotText);
    }
    let mut scan = Scan { text: bytes, at: 0 };
    let node = match scan.value() {
        Ok(n) => n,
        Err(f) => {
            return Err(f);
        },
    };
    scan.space();
    if scan.at < bytes.len() {
        return Err(scan.stop("something follows the value the file holds"));
    }
    Ok(node)
}

/// The canonical form of `bytes`, or why they have none.
pub fn canonical(bytes: &[u8]) -> (r: Result<Vec<u8>, Fault>)
    requires
        bytes@.len() < usize::MAX,
    ensures
        match canonical_form(bytes@) {
            Ok(form) => r matches Ok(out) && out@ == form,
            Err(e) => r matches Err(f) && f.flaw() == e,
        },
{
    let node = match read(bytes) {
        Ok(n) => n,
        Err(f) => {
            return Err(f);
        },
    };
    let mut out: Vec<u8> = Vec::new();
    let pad: Vec<u8> = Vec::new();
    assert(pad@ =~= indent(0));
    write_node(&node, &pad, &mut out, Ghost(0));
    out.push(10);
    assert(out@ =~= render(node.value(), 0).push(10u8));
    Ok(out)
}

// ---------------------------------------------------------------------------
// Where a file and its form part company.
/// The first byte at or after `i` where `a` and `b` differ, or the end of
/// the shorter of the two.
pub open spec fn mismatch_from(a: Seq<u8>, b: Seq<u8>, i: int) -> int
    decreases a.len() - i,
{
    if 0 <= i < a.len() && i < b.len() && a[i] == b[i] {
        mismatch_from(a, b, i + 1)
    } else {
        i
    }
}

/// The first byte where `a` and `b` differ, or the end of the shorter.
pub open spec fn mismatch(a: Seq<u8>, b: Seq<u8>) -> int {
    mismatch_from(a, b, 0)
}

proof fn lemma_mismatch_from(a: Seq<u8>, b: Seq<u8>, i: int)
    requires
        0 <= i <= a.len(),
        i <= b.len(),
    ensures
        i <= mismatch_from(a, b, i) <= a.len(),
        mismatch_from(a, b, i) <= b.len(),
        forall|j: int| i <= j < mismatch_from(a, b, i) ==> a[j] == b[j],
        mismatch_from(a, b, i) < a.len() && mismatch_from(a, b, i) < b.len() ==> a[mismatch_from(
            a,
            b,
            i,
        )] != b[mismatch_from(a, b, i)],
    decreases a.len() - i,
{
    if i < a.len() && i < b.len() && a[i] == b[i] {
        lemma_mismatch_from(a, b, i + 1);
    }
}

/// Line `line` of a text, counting from one, or a sentence where the text
/// has no such line.
pub open spec fn nth_line_of(text: Seq<u8>, line: int) -> Seq<u8> {
    if 1 <= line <= lines(text).len() {
        lines(text)[line - 1]
    } else {
        lit("nothing, the text ends above here")
    }
}

/// What a run says about the first place a file and its form part company,
/// or nothing where they do not.
///
/// The line is the one the first differing byte is on. Where that line reads
/// the same in both, the byte that differs does not print, and the sentence
/// says so rather than showing two lines that look identical.
pub open spec fn difference(found: Seq<u8>, wanted: Seq<u8>) -> Option<Seq<u8>> {
    if found == wanted {
        None
    } else {
        let line = line_of(found, mismatch(found, wanted));
        let has = nth_line_of(found, line as int);
        let wants = nth_line_of(wanted, line as int);
        if has == wants {
            Some(
                lit("line ") + decimal(line) + lit(
                    " differs from the form in a byte that does not print, such as a line ending or the line feed the file ends with",
                ),
            )
        } else {
            Some(
                lit("line ") + decimal(line) + lit(" reads   ") + has + lit("\n      the form is   ")
                    + wants,
            )
        }
    }
}

/// Line `line` of `text`, counting from one, or a sentence where it has no
/// such line.
pub fn nth_line_bytes(text: &[u8], line: usize) -> (r: Vec<u8>)
    requires
        line >= 1,
    ensures
        r@ == nth_line_of(text@, line as int),
{
    let n = text.len();
    let mut at: usize = 0;
    let mut k: usize = 1;
    let ghost mut done: Seq<Seq<u8>> = seq![];
    assert(text@.skip(0) =~= text@);
    while at < n
        invariant
            n == text@.len(),
            at <= n,
            1 <= k <= line,
            done.len() == k - 1,
            lines(text@) == done + lines(text@.skip(at as int)),
        decreases n - at,
    {
        let span = line_at(text, at);
        if k == line {
            let r = copy_range(text, span.start, span.end);
            assert((done + lines(text@.skip(at as int)))[k - 1] == r@);
            return r;
        }
        proof {
            done = done.push(text@.subrange(at as int, span.end as int));
            assert(lines(text@) =~= done + lines(text@.skip(span.next as int)));
        }
        at = span.next;
        k = k + 1;
    }
    assert(text@.skip(at as int) =~= Seq::<u8>::empty());
    assert(lines(text@.skip(at as int)) =~= Seq::<Seq<u8>>::empty());
    assert(lines(text@) =~= done);
    let mut r: Vec<u8> = Vec::new();
    push_str(&mut r, "nothing, the text ends above here");
    r
}

/// What a run says about the first place a file and its form part company.
///
/// The comparison is over bytes rather than over lines, because the two
/// differences a line comparison cannot see are exactly the two this form is
/// most often broken by: a line ending and a final line feed.
pub fn first_difference_bytes(found: &[u8], wanted: &[u8]) -> (r: Option<Vec<u8>>)
    requires
        found@.len() < usize::MAX,
    ensures
        match difference(found@, wanted@) {
            Some(d) => r matches Some(t) && t@ == d,
            None => r is None,
        },
{
    if same(found, wanted) {
        return None;
    }
    let mut at: usize = 0;
    proof {
        lemma_mismatch_from(found@, wanted@, 0);
    }
    while at < found.len() && at < wanted.len() && found[at] == wanted[at]
        invariant
            at <= found@.len(),
            at <= wanted@.len(),
            mismatch_from(found@, wanted@, at as int) == mismatch(found@, wanted@),
        decreases found@.len() - at,
    {
        at = at + 1;
    }
    let line = count_byte_exec(found, at, 10) + 1;
    assert(line == line_of(found@, mismatch(found@, wanted@)));
    let has = nth_line_bytes(found, line);
    let wants = nth_line_bytes(wanted, line);
    let mut out: Vec<u8> = Vec::new();
    push_str(&mut out, "line ");
    push_decimal(&mut out, line);
    if same(has.as_slice(), wants.as_slice()) {
        push_str(
            &mut out,
            " differs from the form in a byte that does not print, such as a line ending or the line feed the file ends with",
        );
    } else {
        push_str(&mut out, " reads   ");
        push_all(&mut out, has.as_slice());
        push_str(&mut out, "\n      the form is   ");
        push_all(&mut out, wants.as_slice());
    }
    Some(out)
}

/// Line `line` of `text`, counting from one, or a sentence where it has no
/// such line.
pub fn nth_line(text: &str, line: usize) -> (r: Vec<u8>)
    requires
        line >= 1,
    ensures
        r@ == nth_line_of(text.spec_bytes(), line as int),
{
    nth_line_bytes(text.as_bytes(), line)
}

/// What a run says about the first place a file and its form part company.
///
/// The line is counted over the bytes before the first that differs, so a
/// difference that falls inside a character is named like any other.
pub fn first_difference(found: &str, wanted: &str) -> (r: Option<Vec<u8>>)
    requires
        found.spec_bytes().len() < usize::MAX,
    ensures
        match difference(found.spec_bytes(), wanted.spec_bytes()) {
            Some(d) => r matches Some(t) && t@ == d,
            None => r is None,
        },
{
    first_difference_bytes(found.as_bytes(), wanted.as_bytes())
}

// ---------------------------------------------------------------------------
// The check.
/// Whether a tracked path is a record this form is a promise about: under
/// the register, with the format's extension in any case.
pub open spec fn record_path(name: Seq<u8>) -> bool {
    starts_with(name, lit(REGISTER)) && has_extension(name, lit(RECORD_EXTENSION))
}

/// Whether a tracked path is a record this form is a promise about.
pub fn is_a_record(name: &str) -> (r: bool)
    ensures
        r == record_path(name.spec_bytes()),
{
    is_a_record_bytes(name.as_bytes())
}

/// Whether a tracked path is a record this form is a promise about.
pub fn is_a_record_bytes(name: &[u8]) -> (r: bool)
    ensures
        r == record_path(name@),
{
    starts_with_exec(name, REGISTER.as_bytes()) && has_extension_exec(
        name,
        RECORD_EXTENSION.as_bytes(),
    )
}

/// What a run says of one record that was read, where it is not in the form.
pub open spec fn record_says(name: Seq<u8>, bytes: Seq<u8>) -> Option<Seq<u8>> {
    match canonical_form(bytes) {
        Err(e) => Some(lit("  ") + name + lit("\n      ") + said(e)),
        Ok(form) => match difference(bytes, form) {
            Some(d) => Some(lit("  ") + name + lit("\n      ") + d),
            None => None,
        },
    }
}

/// A record is refused for its form exactly when its bytes are not their
/// own canonical form: a record in the form is left exactly as it stands,
/// and one that differs from its form in any byte is named.
pub proof fn lemma_a_record_is_refused_exactly_when_it_is_not_its_form(
    name: Seq<u8>,
    bytes: Seq<u8>,
)
    ensures
        record_says(name, bytes) is None <==> canonical_form(bytes) == Ok::<Seq<u8>, Flaw>(bytes),
{
}

/// What one walk over the records found: what each record out of the form
/// says, how many were read and how many were tracked and not there.
pub struct RecordTally {
    pub wrong: Seq<Seq<u8>>,
    pub read: nat,
    pub unread: nat,
}

/// The walk over the first records of a tree.
pub open spec fn tally_records(fs: Seq<FileView>) -> RecordTally
    decreases fs.len(),
{
    if fs.len() == 0 {
        RecordTally { wrong: seq![], read: 0, unread: 0 }
    } else {
        let t = tally_records(fs.drop_last());
        let f = fs.last();
        if !record_path(f.name) {
            t
        } else {
            match f.bytes {
                Err(_) => RecordTally { wrong: t.wrong, read: t.read, unread: t.unread + 1 },
                Ok(b) => RecordTally {
                    wrong: match record_says(f.name, b) {
                        Some(w) => t.wrong.push(w),
                        None => t.wrong,
                    },
                    read: t.read + 1,
                    unread: t.unread,
                },
            }
        }
    }
}

/// The refusal that names every record out of the form.
pub open spec fn form_refusal(wrong: Seq<Seq<u8>>) -> Seq<u8> {
    decimal(wrong.len()) + lit(" record(s) are not in the canonical form:\n\n") + each_line(wrong)
        + lit(FORM_IS_FIXED)
}

/// What the check finds in a tree.
pub open spec fn records_verdict(listing: Result<Seq<FileView>, Seq<u8>>) -> Verdict {
    match listing {
        Err(why) => Verdict::CouldNotJudge(why),
        Ok(fs) => {
            let t = tally_records(fs);
            if t.wrong.len() > 0 {
                Verdict::Refused(form_refusal(t.wrong))
            } else {
                Verdict::Nothing(
                    Some(
                        decimal(t.read) + lit(" record(s) read under ") + lit(REGISTER) + if t.unread
                            > 0 {
                            lit(", ") + decimal(t.unread) + lit(
                                " tracked but not in the working copy",
                            )
                        } else {
                            seq![]
                        },
                    ),
                )
            }
        },
    }
}

/// What a run says when a record is not in the form.
pub fn refusal(wrong: &Vec<Vec<u8>>) -> (r: Vec<u8>)
    ensures
        r@ == form_refusal(views(wrong@)),
{
    let mut why: Vec<u8> = Vec::new();
    push_decimal(&mut why, wrong.len());
    push_str(&mut why, " record(s) are not in the canonical form:\n\n");
    push_lines(&mut why, wrong);
    push_str(&mut why, FORM_IS_FIXED);
    why
}

/// Refuses a record that is not stored in the canonical form.
///
/// The subject is every tracked file under `register/` with the format's
/// extension. What is under `register/` is the published product, and the
/// form is a promise made about that product rather than about this
/// project's own files, so nothing else is read and the count says how many
/// were.
pub fn every_record_is_in_the_canonical_form(listing: &Result<Vec<TrackedFile>, Vec<u8>>) -> (r:
    Judged)
    requires
        files_fit(listing_of(*listing)),
    ensures
        r@ == records_verdict(listing_of(*listing)),
{
    let files = match listing {
        Err(why) => {
            return Judged::CouldNotJudge(copy_all(why.as_slice()));
        },
        Ok(files) => files,
    };
    let ghost fs = files_of(files@);
    let mut wrong: Vec<Vec<u8>> = Vec::new();
    let mut read: usize = 0;
    let mut unread: usize = 0;
    let mut i: usize = 0;
    while i < files.len()
        invariant
            0 <= i <= files@.len(),
            fs == files_of(files@),
            files_fit(Ok(fs)),
            views(wrong@) == tally_records(fs.take(i as int)).wrong,
            read == tally_records(fs.take(i as int)).read,
            unread == tally_records(fs.take(i as int)).unread,
            read + unread <= i,
        decreases files@.len() - i,
    {
        let f = &files[i];
        assert(fs.take(i + 1).drop_last() =~= fs.take(i as int));
        assert(fs.take(i + 1).last() == fs[i as int]);
        if is_a_record_bytes(f.name.as_slice()) {
            match &f.bytes {
                Err(_) => {
                    unread = unread + 1;
                },
                Ok(bytes) => {
                    read = read + 1;
                    assert(fs[i as int].bytes == Ok::<Seq<u8>, Seq<u8>>(bytes@));
                    let ghost before = views(wrong@);
                    match canonical(bytes.as_slice()) {
                        Err(fault) => {
                            let mut one: Vec<u8> = Vec::new();
                            push_str(&mut one, "  ");
                            push_all(&mut one, f.name.as_slice());
                            push_str(&mut one, "\n      ");
                            push_all(&mut one, fault.says().as_slice());
                            wrong.push(one);
                            assert(views(wrong@) =~= before.push(one@));
                        },
                        Ok(form) => {
                            match first_difference_bytes(bytes.as_slice(), form.as_slice()) {
                                Some(d) => {
                                    let mut one: Vec<u8> = Vec::new();
                                    push_str(&mut one, "  ");
                                    push_all(&mut one, f.name.as_slice());
                                    push_str(&mut one, "\n      ");
                                    push_all(&mut one, d.as_slice());
                                    wrong.push(one);
                                    assert(views(wrong@) =~= before.push(one@));
                                },
                                None => {},
                            }
                        },
                    }
                },
            }
        }
        i = i + 1;
    }
    assert(fs.take(files@.len() as int) =~= fs);
    let ghost t = tally_records(fs);
    assert(views(wrong@).len() == wrong@.len());
    if wrong.len() > 0 {
        let why = refusal(&wrong);
        assert(why@ == form_refusal(t.wrong));
        return Judged::Refused(why);
    }
    assert(t.wrong.len() == 0);
    let mut note: Vec<u8> = Vec::new();
    push_decimal(&mut note, read);
    push_str(&mut note, " record(s) read under ");
    push_str(&mut note, REGISTER);
    if unread > 0 {
        push_str(&mut note, ", ");
        push_decimal(&mut note, unread);
        push_str(&mut note, " tracked but not in the working copy");
    }
    assert(note@ =~= decimal(t.read) + lit(" record(s) read under ") + lit(REGISTER) + if t.unread
        > 0 {
        lit(", ") + decimal(t.unread) + lit(" tracked but not in the working copy")
    } else {
        seq![]
    });
    Judged::Nothing(Some(note))
}

} // verus!
