//! The findings part: a suppression that names no record, and a record no
//! suppression names, are refused.
//!
//! A finding an analyser raises is either fixed or accepted, and an accepted
//! one is an argument that has to outlive the tool that raised it. It fails
//! closed in both directions, so the records describe the tree rather than
//! its own history.
//!
//! Refusal surface. This file decides whether a suppression or a record is
//! refused.

use vstd::prelude::*;
use vstd::string::StringSliceAdditionalSpecFns;
use crate::invariants::{is_a_record_bytes, record_path};
use crate::text::{
    contains, contains_exec, copy_all, copy_range, decimal, each_line, line_at, lines, lit,
    push_all, push_decimal, push_lines, push_str, same, starts_with, starts_with_exec, views,
};
use crate::tree::{FileView, Judged, TrackedFile, Verdict, files_fit, files_of, listing_of, text_of};
use crate::unicode::is_utf8;

verus! {

/// Where a finding accepted rather than fixed is recorded.
pub const ACCEPTED: &'static str = "docs/accepted-findings/";

/// How many spellings turn a finding off.
pub open spec fn suppression_count() -> nat {
    3
}

/// Spelling `k` of those that turn a finding off rather than fixing it.
pub open spec fn suppression(k: int) -> &'static str {
    if k == 0 {
        "#[allow("
    } else if k == 1 {
        "#[expect("
    } else {
        "zizmor: ignore"
    }
}

/// The spellings that turn a finding off rather than fixing it.
pub fn suppression_spellings() -> (r: Vec<&'static str>)
    ensures
        r@.len() == suppression_count(),
        forall|k: int| 0 <= k < r@.len() ==> #[trigger] r@[k] == suppression(k),
{
    let mut r: Vec<&'static str> = Vec::new();
    r.push("#[allow(");
    r.push("#[expect(");
    r.push("zizmor: ignore");
    r
}

/// The first of the spellings from `k` on that a line holds.
pub open spec fn suppression_from(line: Seq<u8>, k: int) -> Option<int>
    decreases suppression_count() - k,
{
    if k < 0 || k >= suppression_count() {
        None
    } else if contains(line, lit(suppression(k))) {
        Some(k)
    } else {
        suppression_from(line, k + 1)
    }
}

/// Every suppression among `ls`, the first of them being line `n`, with the
/// spelling that named it and the whole of the line it is on.
pub open spec fn suppressions_from(ls: Seq<Seq<u8>>, n: nat) -> Seq<(nat, &'static str, Seq<u8>)>
    decreases ls.len(),
{
    if ls.len() == 0 {
        seq![]
    } else {
        let rest = suppressions_from(ls.drop_first(), n + 1);
        match suppression_from(ls[0], 0) {
            Some(k) => seq![(n, suppression(k), ls[0])] + rest,
            None => rest,
        }
    }
}

/// What a list of suppressions says, as the checks state it.
pub open spec fn suppressions_view(v: Seq<(usize, &'static str, Vec<u8>)>) -> Seq<
    (nat, &'static str, Seq<u8>),
> {
    Seq::new(v.len(), |i: int| (v[i].0 as nat, v[i].1, v[i].2@))
}

proof fn lemma_suppression_from(line: Seq<u8>, k: int)
    ensures
        suppression_from(line, k) matches Some(j) ==> k <= j < suppression_count(),
    decreases suppression_count() - k,
{
    if 0 <= k < suppression_count() && !contains(line, lit(suppression(k))) {
        lemma_suppression_from(line, k + 1);
    }
}

fn suppression_in(line: &[u8], spellings: &Vec<&'static str>) -> (r: Option<usize>)
    requires
        spellings@.len() == suppression_count(),
        forall|k: int| 0 <= k < spellings@.len() ==> #[trigger] spellings@[k] == suppression(k),
    ensures
        match suppression_from(line@, 0) {
            Some(k) => r == Some(k as usize),
            None => r is None,
        },
        r matches Some(k) ==> k < suppression_count(),
{
    let mut k: usize = 0;
    while k < spellings.len()
        invariant
            0 <= k <= spellings@.len(),
            spellings@.len() == suppression_count(),
            forall|j: int| 0 <= j < spellings@.len() ==> #[trigger] spellings@[j] == suppression(j),
            suppression_from(line@, 0) == suppression_from(line@, k as int),
        decreases spellings@.len() - k,
    {
        let spelling = spellings[k];
        if contains_exec(line, spelling.as_bytes()) {
            return Some(k);
        }
        k = k + 1;
    }
    None
}

/// Every suppression in the bytes of a text, with its line, the spelling
/// that named it and the whole of the line it is on.
pub fn suppressions_in(text: &[u8]) -> (r: Vec<(usize, &'static str, Vec<u8>)>)
    requires
        text@.len() < usize::MAX,
    ensures
        suppressions_view(r@) == suppressions_from(lines(text@), 1),
{
    let spellings = suppression_spellings();
    let n = text.len();
    let mut out: Vec<(usize, &'static str, Vec<u8>)> = Vec::new();
    let mut at: usize = 0;
    let mut number: usize = 1;
    assert(text@.skip(0) =~= text@);
    while at < n
        invariant
            n == text@.len(),
            n < usize::MAX,
            at <= n,
            1 <= number <= at + 1,
            spellings@.len() == suppression_count(),
            forall|k: int| 0 <= k < spellings@.len() ==> #[trigger] spellings@[k] == suppression(k),
            suppressions_view(out@) + suppressions_from(lines(text@.skip(at as int)), number as nat)
                == suppressions_from(lines(text@), 1),
        decreases n - at,
    {
        let span = line_at(text, at);
        let ghost ls = lines(text@.skip(at as int));
        assert(ls[0] == text@.subrange(at as int, span.end as int));
        assert(ls.drop_first() =~= lines(text@.skip(span.next as int)));
        let line = copy_range(text, span.start, span.end);
        assert(line@ == ls[0]);
        match suppression_in(line.as_slice(), &spellings) {
            Some(k) => {
                proof {
                    lemma_suppression_from(ls[0], 0);
                }
                assert(suppression_from(ls[0], 0) == Some(k as int));
                assert(spellings@[k as int] == suppression(k as int));
                assert(suppressions_from(ls, number as nat) == seq![
                    (number as nat, suppression(k as int), ls[0]),
                ] + suppressions_from(ls.drop_first(), (number + 1) as nat));
                let ghost before = suppressions_view(out@);
                let spelling = spellings[k];
                out.push((number, spelling, line));
                assert(suppressions_view(out@) =~= before.push((number as nat, spelling, ls[0])));
                assert(suppressions_view(out@) + suppressions_from(
                    lines(text@.skip(span.next as int)),
                    (number + 1) as nat,
                ) =~= before + suppressions_from(ls, number as nat));
            },
            None => {},
        }
        at = span.next;
        number = number + 1;
    }
    assert(text@.skip(at as int) =~= Seq::<u8>::empty());
    assert(lines(text@.skip(at as int)) =~= Seq::<Seq<u8>>::empty());
    assert(suppressions_view(out@) =~= suppressions_from(lines(text@), 1));
    out
}

/// Every suppression in `text`, with its line, the spelling that named it
/// and the whole of the line it is on.
pub fn suppressions(text: &str) -> (r: Vec<(usize, &'static str, Vec<u8>)>)
    requires
        text.spec_bytes().len() < usize::MAX,
    ensures
        suppressions_view(r@) == suppressions_from(lines(text.spec_bytes()), 1),
{
    suppressions_in(text.as_bytes())
}

/// The first of `records` a line names.
pub open spec fn record_in(said: Seq<u8>, records: Seq<Seq<u8>>, k: int) -> Option<int>
    decreases records.len() - k,
{
    if k < 0 || k >= records.len() {
        None
    } else if contains(said, records[k]) {
        Some(k)
    } else {
        record_in(said, records, k + 1)
    }
}

proof fn lemma_record_in(said: Seq<u8>, records: Seq<Seq<u8>>, k: int)
    ensures
        record_in(said, records, k) matches Some(j) ==> k <= j < records.len(),
    decreases records.len() - k,
{
    if 0 <= k < records.len() && !contains(said, records[k]) {
        lemma_record_in(said, records, k + 1);
    }
}

/// Which of `records` a suppression line names, where it names one: the
/// first whose whole path the line holds.
pub fn record_named(said: &[u8], records: &Vec<Vec<u8>>) -> (r: Option<usize>)
    ensures
        match record_in(said@, views(records@), 0) {
            Some(k) => r == Some(k as usize),
            None => r is None,
        },
        r matches Some(k) ==> k < records@.len(),
{
    let mut k: usize = 0;
    while k < records.len()
        invariant
            0 <= k <= records@.len(),
            record_in(said@, views(records@), 0) == record_in(said@, views(records@), k as int),
        decreases records@.len() - k,
    {
        assert(views(records@)[k as int] == records@[k as int]@);
        if contains_exec(said, records[k].as_slice()) {
            return Some(k);
        }
        k = k + 1;
    }
    None
}

// ---------------------------------------------------------------------------
// The check.
/// Whether a tracked path is read for a suppression.
pub open spec fn searched_path(name: Seq<u8>) -> bool {
    starts_with(name, lit("crates/")) || starts_with(name, lit(".github/"))
}

/// Whether a tracked path is read for a suppression.
pub fn is_searched_for_a_finding_bytes(name: &[u8]) -> (r: bool)
    ensures
        r == searched_path(name@),
{
    starts_with_exec(name, "crates/".as_bytes()) || starts_with_exec(name, ".github/".as_bytes())
}

/// Whether a tracked path is read for a suppression.
pub fn is_searched_for_a_finding(name: &str) -> (r: bool)
    ensures
        r == searched_path(name.spec_bytes()),
{
    is_searched_for_a_finding_bytes(name.as_bytes())
}

/// Whether a tracked path is a record of an accepted finding.
pub open spec fn accepted_path(name: Seq<u8>) -> bool {
    starts_with(name, lit(ACCEPTED)) && record_path(name)
}

/// The records of accepted findings among the first files of a tree.
pub open spec fn accepted_records(fs: Seq<FileView>) -> Seq<Seq<u8>>
    decreases fs.len(),
{
    if fs.len() == 0 {
        seq![]
    } else if accepted_path(fs.last().name) {
        accepted_records(fs.drop_last()).push(fs.last().name)
    } else {
        accepted_records(fs.drop_last())
    }
}

/// What the suppressions of one file add: the records they name, and a line
/// for each that names none.
pub open spec fn named_by(
    name: Seq<u8>,
    sups: Seq<(nat, &'static str, Seq<u8>)>,
    records: Seq<Seq<u8>>,
) -> (Seq<Seq<u8>>, Seq<Seq<u8>>)
    decreases sups.len(),
{
    if sups.len() == 0 {
        (seq![], seq![])
    } else {
        let (named, unrecorded) = named_by(name, sups.drop_last(), records);
        let s = sups.last();
        match record_in(s.2, records, 0) {
            Some(k) => (named.push(records[k]), unrecorded),
            None => (
                named,
                unrecorded.push(
                    lit("  ") + name + lit(":") + decimal(s.0) + lit("  ") + lit(s.1) + lit(
                        "\n      names no record under ",
                    ) + lit(ACCEPTED),
                ),
            ),
        }
    }
}

/// What the search over a tree found.
pub struct FindingTally {
    pub named: Seq<Seq<u8>>,
    pub unrecorded: Seq<Seq<u8>>,
    pub read: nat,
}

/// The search over the first files of a tree.
pub open spec fn tally_findings(fs: Seq<FileView>, records: Seq<Seq<u8>>) -> FindingTally
    decreases fs.len(),
{
    if fs.len() == 0 {
        FindingTally { named: seq![], unrecorded: seq![], read: 0 }
    } else {
        let t = tally_findings(fs.drop_last(), records);
        let f = fs.last();
        if !searched_path(f.name) {
            t
        } else {
            match text_of(f) {
                None => t,
                Some(b) => {
                    let (named, unrecorded) = named_by(
                        f.name,
                        suppressions_from(lines(b), 1),
                        records,
                    );
                    FindingTally {
                        named: t.named + named,
                        unrecorded: t.unrecorded + unrecorded,
                        read: t.read + 1,
                    }
                },
            }
        }
    }
}

/// The first `k` records that no suppression names.
pub open spec fn dangling(records: Seq<Seq<u8>>, named: Seq<Seq<u8>>, k: int) -> Seq<Seq<u8>>
    decreases k,
{
    if k <= 0 {
        seq![]
    } else if named.contains(records[k - 1]) {
        dangling(records, named, k - 1)
    } else {
        dangling(records, named, k - 1).push(records[k - 1])
    }
}

/// Each dangling record, as a refusal names it.
pub open spec fn dangling_lines(ds: Seq<Seq<u8>>) -> Seq<u8>
    decreases ds.len(),
{
    if ds.len() == 0 {
        seq![]
    } else {
        dangling_lines(ds.drop_last()) + ds.last() + lit(
            " accepts a finding that nothing suppresses any more.\n",
        )
    }
}

/// What the refusal says after the findings it names.
pub const FINDINGS_REPAIR: &'static str = "\nA suppression names its record on the same line, and docs/accepted-findings/README.md is\nwhere the shape of one is written. Lowering a lint for the whole tree is a\nchange to the workspace manifest instead, argued there.\n";

/// What the check finds in a tree.
pub open spec fn findings_verdict(listing: Result<Seq<FileView>, Seq<u8>>) -> Verdict {
    match listing {
        Err(why) => Verdict::CouldNotJudge(why),
        Ok(fs) => {
            let records = accepted_records(fs);
            let t = tally_findings(fs, records);
            let d = dangling(records, t.named, records.len() as int);
            if t.unrecorded.len() > 0 || d.len() > 0 {
                Verdict::Refused(
                    (if t.unrecorded.len() > 0 {
                        decimal(t.unrecorded.len()) + lit(
                            " finding(s) turned off with the reason nowhere:\n\n",
                        ) + each_line(t.unrecorded)
                    } else {
                        seq![]
                    }) + dangling_lines(d) + lit(FINDINGS_REPAIR),
                )
            } else {
                Verdict::Nothing(
                    Some(
                        decimal(t.read) + lit(" file(s) searched, ") + decimal(t.named.len())
                            + lit(" suppression(s), ") + decimal(records.len()) + lit(
                            " record(s)",
                        ),
                    ),
                )
            }
        },
    }
}

fn collect_records(files: &Vec<TrackedFile>) -> (r: Vec<Vec<u8>>)
    ensures
        views(r@) == accepted_records(files_of(files@)),
{
    let ghost fs = files_of(files@);
    let mut records: Vec<Vec<u8>> = Vec::new();
    let mut i: usize = 0;
    while i < files.len()
        invariant
            0 <= i <= files@.len(),
            fs == files_of(files@),
            views(records@) == accepted_records(fs.take(i as int)),
        decreases files@.len() - i,
    {
        let f = &files[i];
        assert(fs.take(i + 1).drop_last() =~= fs.take(i as int));
        assert(fs.take(i + 1).last() == fs[i as int]);
        if starts_with_exec(f.name.as_slice(), ACCEPTED.as_bytes()) && is_a_record_bytes(
            f.name.as_slice(),
        ) {
            let ghost before = views(records@);
            records.push(copy_all(f.name.as_slice()));
            assert(views(records@) =~= before.push(f.name@));
        }
        i = i + 1;
    }
    assert(fs.take(files@.len() as int) =~= fs);
    records
}

fn file_findings(
    name: &[u8],
    text: &[u8],
    records: &Vec<Vec<u8>>,
    named: &mut Vec<Vec<u8>>,
    unrecorded: &mut Vec<Vec<u8>>,
)
    requires
        text@.len() < usize::MAX,
    ensures
        ({
            let (n, u) = named_by(name@, suppressions_from(lines(text@), 1), views(records@));
            &&& views(final(named)@) == views(old(named)@) + n
            &&& views(final(unrecorded)@) == views(old(unrecorded)@) + u
        }),
{
    let sups = suppressions_in(text);
    let ghost sv = suppressions_view(sups@);
    let ghost n0 = views(named@);
    let ghost u0 = views(unrecorded@);
    let mut i: usize = 0;
    while i < sups.len()
        invariant
            0 <= i <= sups@.len(),
            sv == suppressions_view(sups@),
            ({
                let (n, u) = named_by(name@, sv.take(i as int), views(records@));
                &&& views(named@) == n0 + n
                &&& views(unrecorded@) == u0 + u
            }),
        decreases sups@.len() - i,
    {
        let (line, spelling, said) = (sups[i].0, sups[i].1, &sups[i].2);
        assert(sv.take(i + 1).drop_last() =~= sv.take(i as int));
        assert(sv.take(i + 1).last() == sv[i as int]);
        assert(sv[i as int] == (line as nat, spelling, said@));
        let ghost prev = named_by(name@, sv.take(i as int), views(records@));
        let ghost next = named_by(name@, sv.take(i + 1), views(records@));
        proof {
            lemma_record_in(said@, views(records@), 0);
        }
        let found = record_named(said.as_slice(), records);
        proof {
            match record_in(said@, views(records@), 0) {
                Some(j) => {
                    assert(0 <= j < records.len());
                    assert(found == Some(j as usize));
                    assert((j as usize) as int == j);
                },
                None => {},
            }
        }
        match found {
            Some(k) => {
                let ghost before = views(named@);
                named.push(copy_all(records[k].as_slice()));
                assert(views(named@) =~= before.push(views(records@)[k as int]));
                assert(record_in(said@, views(records@), 0) == Some(k as int));
                assert(sv.take(i + 1).len() > 0);
                assert(next == (prev.0.push(views(records@)[k as int]), prev.1));
                assert(n0 + next.0 =~= (n0 + prev.0).push(views(records@)[k as int]));
            },
            None => {
                let mut one: Vec<u8> = Vec::new();
                push_str(&mut one, "  ");
                push_all(&mut one, name);
                push_str(&mut one, ":");
                push_decimal(&mut one, line);
                push_str(&mut one, "  ");
                push_str(&mut one, spelling);
                push_str(&mut one, "\n      names no record under ");
                push_str(&mut one, ACCEPTED);
                let ghost before = views(unrecorded@);
                unrecorded.push(one);
                assert(views(unrecorded@) =~= before.push(one@));
                assert(one@ =~= lit("  ") + name@ + lit(":") + decimal(line as nat) + lit("  ")
                    + lit(spelling) + lit("\n      names no record under ") + lit(ACCEPTED));
                assert(next == (prev.0, prev.1.push(one@)));
                assert(u0 + next.1 =~= (u0 + prev.1).push(one@));
            },
        }
        i = i + 1;
    }
    assert(sv.take(sups@.len() as int) =~= sv);
}

fn search_findings(files: &Vec<TrackedFile>, records: &Vec<Vec<u8>>) -> (r: (
    Vec<Vec<u8>>,
    Vec<Vec<u8>>,
    usize,
))
    requires
        files_fit(Ok(files_of(files@))),
    ensures
        views(r.0@) == tally_findings(files_of(files@), views(records@)).named,
        views(r.1@) == tally_findings(files_of(files@), views(records@)).unrecorded,
        r.2 == tally_findings(files_of(files@), views(records@)).read,
{
    let ghost fs = files_of(files@);
    let mut named: Vec<Vec<u8>> = Vec::new();
    let mut unrecorded: Vec<Vec<u8>> = Vec::new();
    let mut read: usize = 0;
    let mut i: usize = 0;
    while i < files.len()
        invariant
            0 <= i <= files@.len(),
            fs == files_of(files@),
            files_fit(Ok(fs)),
            views(named@) == tally_findings(fs.take(i as int), views(records@)).named,
            views(unrecorded@) == tally_findings(fs.take(i as int), views(records@)).unrecorded,
            read == tally_findings(fs.take(i as int), views(records@)).read,
            read <= i,
        decreases files@.len() - i,
    {
        let f = &files[i];
        assert(fs.take(i + 1).drop_last() =~= fs.take(i as int));
        assert(fs.take(i + 1).last() == fs[i as int]);
        if is_searched_for_a_finding_bytes(f.name.as_slice()) {
            match &f.bytes {
                Err(_) => {},
                Ok(bytes) => {
                    if is_utf8(bytes.as_slice()) {
                        read = read + 1;
                        assert(fs[i as int].bytes == Ok::<Seq<u8>, Seq<u8>>(bytes@));
                        file_findings(
                            f.name.as_slice(),
                            bytes.as_slice(),
                            records,
                            &mut named,
                            &mut unrecorded,
                        );
                    }
                },
            }
        }
        i = i + 1;
    }
    assert(fs.take(files@.len() as int) =~= fs);
    (named, unrecorded, read)
}

fn named_contains(named: &Vec<Vec<u8>>, record: &[u8]) -> (r: bool)
    ensures
        r == views(named@).contains(record@),
{
    let mut i: usize = 0;
    while i < named.len()
        invariant
            0 <= i <= named@.len(),
            forall|j: int| 0 <= j < i ==> views(named@)[j] != record@,
        decreases named@.len() - i,
    {
        if same(named[i].as_slice(), record) {
            assert(views(named@)[i as int] == record@);
            return true;
        }
        i = i + 1;
    }
    false
}

/// Refuses a suppression that names no record, and a record no suppression
/// names.
///
/// The subject is tracked files under `crates/` and `.github/`. The records
/// themselves are not read, because a record is about a spelling and
/// carries it, and a search there would refuse the records.
pub fn every_accepted_finding_is_recorded(listing: &Result<Vec<TrackedFile>, Vec<u8>>) -> (r:
    Judged)
    requires
        files_fit(listing_of(*listing)),
    ensures
        r@ == findings_verdict(listing_of(*listing)),
{
    let files = match listing {
        Err(why) => {
            return Judged::CouldNotJudge(copy_all(why.as_slice()));
        },
        Ok(files) => files,
    };
    let records = collect_records(files);
    let (named, unrecorded, read) = search_findings(files, &records);
    let ghost rs = views(records@);
    let ghost nv = views(named@);
    let mut dangling_records: Vec<Vec<u8>> = Vec::new();
    let mut k: usize = 0;
    while k < records.len()
        invariant
            0 <= k <= records@.len(),
            rs == views(records@),
            nv == views(named@),
            views(dangling_records@) == dangling(rs, nv, k as int),
        decreases records@.len() - k,
    {
        if !named_contains(&named, records[k].as_slice()) {
            let ghost before = views(dangling_records@);
            dangling_records.push(copy_all(records[k].as_slice()));
            assert(views(dangling_records@) =~= before.push(rs[k as int]));
        }
        k = k + 1;
    }
    if unrecorded.len() > 0 || dangling_records.len() > 0 {
        let mut why: Vec<u8> = Vec::new();
        if unrecorded.len() > 0 {
            push_decimal(&mut why, unrecorded.len());
            push_str(&mut why, " finding(s) turned off with the reason nowhere:\n\n");
            push_lines(&mut why, &unrecorded);
        }
        let ghost head = why@;
        let mut j: usize = 0;
        while j < dangling_records.len()
            invariant
                0 <= j <= dangling_records@.len(),
                why@ == head + dangling_lines(views(dangling_records@).take(j as int)),
            decreases dangling_records@.len() - j,
        {
            push_all(&mut why, dangling_records[j].as_slice());
            push_str(&mut why, " accepts a finding that nothing suppresses any more.\n");
            assert(views(dangling_records@).take(j + 1).drop_last() =~= views(
                dangling_records@,
            ).take(j as int));
            j = j + 1;
        }
        assert(views(dangling_records@).take(dangling_records@.len() as int) =~= views(
            dangling_records@,
        ));
        push_str(&mut why, FINDINGS_REPAIR);
        return Judged::Refused(why);
    }
    let mut note: Vec<u8> = Vec::new();
    push_decimal(&mut note, read);
    push_str(&mut note, " file(s) searched, ");
    push_decimal(&mut note, named.len());
    push_str(&mut note, " suppression(s), ");
    push_decimal(&mut note, records.len());
    push_str(&mut note, " record(s)");
    Judged::Nothing(Some(note))
}


/// A line carrying any one of the suppression spellings is a suppression,
/// named by a spelling it carries; a line carrying none is not.
pub proof fn lemma_a_line_with_any_spelling_is_a_suppression(line: Seq<u8>)
    ensures
        (exists|k: int| 0 <= k < suppression_count() && #[trigger] contains(line, lit(suppression(k))))
            <==> suppression_from(line, 0) is Some,
        suppression_from(line, 0) matches Some(k) ==> 0 <= k < suppression_count() && contains(
            line,
            lit(suppression(k)),
        ),
{
    lemma_suppression_from(line, 0);
    reveal_with_fuel(suppression_from, 4);
    if exists|k: int| 0 <= k < suppression_count() && #[trigger] contains(line, lit(suppression(k))) {
        let k = choose|k: int| 0 <= k < suppression_count() && #[trigger] contains(line, lit(suppression(k)));
        assert(k == 0 || k == 1 || k == 2);
    }
    if let Some(k) = suppression_from(line, 0) {
        assert(contains(line, lit(suppression(k))));
    }
}

/// Whether an entry of the list reports line `line`, numbered `number`, by a
/// spelling the line carries.
pub open spec fn reports_line(e: (nat, &'static str, Seq<u8>), number: int, line: Seq<u8>) -> bool {
    e.0 == number && e.2 == line && contains(line, lit(e.1))
}

/// Every line of a text that carries a suppression spelling is reported,
/// with its number and the whole of it, named by a spelling it carries, and
/// nothing else is reported.
pub proof fn lemma_every_suppression_is_reported(ls: Seq<Seq<u8>>, n: nat)
    ensures
        forall|j: int, k: int|
            0 <= j < ls.len() && 0 <= k < suppression_count() && #[trigger] contains(
                ls[j],
                lit(#[trigger] suppression(k)),
            ) ==> exists|i: int|
                0 <= i < suppressions_from(ls, n).len() && reports_line(
                    #[trigger] suppressions_from(ls, n)[i],
                    n + j,
                    ls[j],
                ),
        forall|i: int|
            0 <= i < suppressions_from(ls, n).len() ==> exists|j: int|
                0 <= j < ls.len() && reports_line(#[trigger] suppressions_from(ls, n)[i], n + j, ls[j]),
    decreases ls.len(),
{
    if ls.len() > 0 {
        let rest = ls.drop_first();
        lemma_every_suppression_is_reported(rest, n + 1);
        lemma_a_line_with_any_spelling_is_a_suppression(ls[0]);
        let r = suppressions_from(rest, n + 1);
        let all = suppressions_from(ls, n);
        let off: int = if suppression_from(ls[0], 0) is Some {
            1
        } else {
            0
        };
        assert(all.len() == r.len() + off);
        assert forall|i: int| 0 <= i < r.len() implies all[i + off] == r[i] by {}
        assert forall|j: int, k: int|
            0 <= j < ls.len() && 0 <= k < suppression_count() && #[trigger] contains(
                ls[j],
                lit(#[trigger] suppression(k)),
            ) implies exists|i: int| 0 <= i < all.len() && reports_line(#[trigger] all[i], n + j, ls[j]) by {
            if j == 0 {
                assert(reports_line(all[0], n + j, ls[j]));
            } else {
                assert(rest[j - 1] == ls[j]);
                assert(contains(rest[j - 1], lit(suppression(k))));
                let i0 = choose|i: int|
                    0 <= i < r.len() && reports_line(#[trigger] r[i], n + 1 + (j - 1), rest[j - 1]);
                assert(all[i0 + off] == r[i0]);
                assert(reports_line(all[i0 + off], n + j, ls[j]));
            }
        }
        assert forall|i: int| 0 <= i < all.len() implies exists|j: int|
            0 <= j < ls.len() && reports_line(#[trigger] all[i], n + j, ls[j]) by {
            if i < off {
                assert(reports_line(all[0], n as int, ls[0]));
            } else {
                assert(all[i] == r[i - off]);
                let j0 = choose|j: int|
                    0 <= j < rest.len() && reports_line(#[trigger] r[i - off], n + 1 + j, rest[j]);
                assert(rest[j0] == ls[j0 + 1]);
                assert(reports_line(all[i], n + (j0 + 1), ls[j0 + 1]));
            }
        }
    }
}
} // verus!
