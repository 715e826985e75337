//! The invariants part: a tracked file that breaks an invariant a record
//! declares is refused.
//!
//! The records are the authority for which invariants exist and this file
//! supplies only the search, so adding one is adding a file. A record that
//! declares itself held while naming no spelling, no subject or no rule is
//! refused rather than passed over, because such a record holds nothing
//! while reading as though it does.
//!
//! Refusal surface. This file decides whether a tracked file is refused for
//! an invariant it breaks.

use vstd::prelude::*;
use vstd::string::StringSliceAdditionalSpecFns;
use vstd::utf8::valid_utf8;
use crate::paths::{has_extension, has_extension_exec, segment_start};
use crate::text::{
    contains, contains_exec, copy_all, copy_range, decimal, each_line, ends_with, ends_with_exec,
    line_at, lines, lit, lower, lower_exec, push_all, push_decimal, push_lines, push_str, same,
    starts_with, starts_with_exec, trim, trim_range, views,
};
use crate::tree::{FileView, Judged, TrackedFile, Verdict, files_fit, files_of, listing_of, text_of};
use crate::unicode::is_utf8;

verus! {

/// Where the invariant records live.
pub const INVARIANTS: &'static str = "docs/invariants/";

/// What a record with no Held line is refused with.
pub const NO_HELD: &'static str = "It carries no Held line, so whether the run searches for it is not stated.";

/// What a held record with no subject or no rule is refused with.
pub const NO_SUBJECT_OR_RULE: &'static str = "It declares Held: yes and carries no Subject or no Rule, so it names nothing to search and prints nothing a refusal could act on.";

/// What a held record with no spelling is refused with.
pub const NO_SPELLING: &'static str = "It declares Held: yes and lists no Spelling, so it would pass every tree while reading as an invariant that holds.";

/// What a record searching the records is refused with.
pub const REACHES_THE_RECORDS: &'static str = "Its subject reaches docs/invariants/, where every record carries the spelling it forbids. A search there refuses the records themselves.";

/// What reading a file that is not UTF-8 as text says.
pub const NOT_UTF8: &'static str = "stream did not contain valid UTF-8";

/// What the refusal says after the lines it names.
pub const INVARIANTS_REPAIR: &'static str = "The rule under each line is the whole of it. Where the rule is wrong the repair is\nto the record in docs/invariants/, argued there, and not a spelling removed to get a\ngreen run.\n";

/// One rule the tree holds by searching itself, as a record declares it.
#[derive(Debug, PartialEq, Eq)]
pub struct Invariant {
    /// The name a refusal prints, taken from the file name.
    pub id: Vec<u8>,
    /// The path prefix whose tracked files are searched.
    pub subject: Vec<u8>,
    /// Text that may not appear in the subject, lowercased at load, because
    /// the search ignores case.
    pub spellings: Vec<Vec<u8>>,
    /// The sentence a refusal prints.
    pub rule: Vec<u8>,
}

/// An invariant, as the checks state it.
pub struct Rule {
    pub id: Seq<u8>,
    pub subject: Seq<u8>,
    pub spellings: Seq<Seq<u8>>,
    pub rule: Seq<u8>,
}

impl View for Invariant {
    type V = Rule;

    open spec fn view(&self) -> Rule {
        Rule {
            id: self.id@,
            subject: self.subject@,
            spellings: views(self.spellings@),
            rule: self.rule@,
        }
    }
}

/// The invariants a list holds, as the checks state them.
pub open spec fn rules_of(v: Seq<Invariant>) -> Seq<Rule> {
    Seq::new(v.len(), |i: int| v[i]@)
}

// ---------------------------------------------------------------------------
// Reading a record.
/// Where the first `b` in `s` from `i` on is.
pub open spec fn index_from(s: Seq<u8>, b: u8, i: int) -> Option<int>
    decreases s.len() - i,
{
    if !(0 <= i < s.len()) {
        None
    } else if s[i] == b {
        Some(i)
    } else {
        index_from(s, b, i + 1)
    }
}

proof fn lemma_index_from(s: Seq<u8>, b: u8, i: int)
    ensures
        index_from(s, b, i) matches Some(k) ==> i <= k < s.len() && s[k] == b,
    decreases s.len() - i,
{
    if 0 <= i < s.len() && s[i] != b {
        lemma_index_from(s, b, i + 1);
    }
}

/// What the header lines of a record declare so far.
pub struct Declared {
    pub held: Option<bool>,
    pub subject: Option<Seq<u8>>,
    pub rule: Option<Seq<u8>>,
    pub spellings: Seq<Seq<u8>>,
}

/// What one line adds: a line `Key: value` with one of the four keys sets
/// that field to the value, trimmed, a later line overriding an earlier
/// one, and each `Spelling` is added lowercased. Every other line is passed
/// over.
pub open spec fn declare_line(d: Declared, line: Seq<u8>) -> Declared {
    match index_from(line, 58, 0) {
        None => d,
        Some(c) => {
            let key = line.take(c);
            let value = trim(line.skip(c + 1));
            if key == lit("Held") {
                Declared { held: Some(value == lit("yes")), ..d }
            } else if key == lit("Subject") {
                Declared { subject: Some(value), ..d }
            } else if key == lit("Rule") {
                Declared { rule: Some(value), ..d }
            } else if key == lit("Spelling") {
                Declared { spellings: d.spellings.push(lower(value)), ..d }
            } else {
                d
            }
        },
    }
}

/// What the lines of a record declare.
pub open spec fn declare(ls: Seq<Seq<u8>>) -> Declared
    decreases ls.len(),
{
    if ls.len() == 0 {
        Declared { held: None, subject: None, rule: None, spellings: seq![] }
    } else {
        declare_line(declare(ls.drop_last()), ls.last())
    }
}

/// A name with every `.md` it closes with taken off.
pub open spec fn without_md(s: Seq<u8>) -> Seq<u8>
    decreases s.len(),
{
    if s.len() >= 3 && s.skip(s.len() - 3) == seq![46u8, 109u8, 100u8] {
        without_md(s.take(s.len() - 3))
    } else {
        s
    }
}

/// The name a record's refusals print: the last segment of its path, with
/// every `.md` it closes with taken off.
pub open spec fn record_id(name: Seq<u8>) -> Seq<u8> {
    without_md(name.skip(segment_start(name, name.len() as int)))
}

/// One record read, or the reason it is not a usable one. `Ok(None)` is a
/// record declaring itself not holdable by a search.
pub open spec fn reading_of(name: Seq<u8>, text: Seq<u8>) -> Result<Option<Rule>, &'static str> {
    let d = declare(lines(text));
    match d.held {
        None => Err(NO_HELD),
        Some(false) => Ok(None),
        Some(true) => if d.subject is None || d.rule is None {
            Err(NO_SUBJECT_OR_RULE)
        } else if d.spellings.len() == 0 {
            Err(NO_SPELLING)
        } else if starts_with(lit(INVARIANTS), d.subject->0) || starts_with(
            d.subject->0,
            lit(INVARIANTS),
        ) {
            Err(REACHES_THE_RECORDS)
        } else {
            Ok(
                Some(
                    Rule {
                        id: record_id(name),
                        subject: d.subject->0,
                        spellings: d.spellings,
                        rule: d.rule->0,
                    },
                ),
            )
        },
    }
}

fn index_of_colon(s: &[u8], from: usize, to: usize) -> (r: Option<usize>)
    requires
        from <= to <= s@.len(),
    ensures
        match index_from(s@.subrange(from as int, to as int), 58, 0) {
            Some(c) => r == Some((from + c) as usize),
            None => r is None,
        },
        r matches Some(i) ==> from <= i < to,
{
    let ghost t = s@.subrange(from as int, to as int);
    let mut i = from;
    while i < to
        invariant
            from <= i <= to <= s@.len(),
            t == s@.subrange(from as int, to as int),
            index_from(t, 58, 0) == index_from(t, 58, i - from),
        decreases to - i,
    {
        assert(t[i - from] == s@[i as int]);
        if s[i] == 58 {
            return Some(i);
        }
        i = i + 1;
    }
    None
}

fn is_key(key: &[u8], word: &str) -> (r: bool)
    ensures
        r == (key@ == lit(word)),
{
    same(key, word.as_bytes())
}

fn strip_md(s: &[u8]) -> (r: Vec<u8>)
    ensures
        r@ == without_md(s@),
{
    let mut end = s.len();
    assert(s@.take(s@.len() as int) =~= s@);
    loop
        invariant
            end <= s@.len(),
            without_md(s@) == without_md(s@.take(end as int)),
        decreases end,
    {
        let ghost t = s@.take(end as int);
        if end >= 3 && s[end - 3] == 46 && s[end - 2] == 109 && s[end - 1] == 100 {
            assert(t.skip(t.len() - 3) =~= seq![46u8, 109u8, 100u8]);
            assert(t.take(t.len() - 3) =~= s@.take(end - 3));
            end = end - 3;
        } else {
            assert(end >= 3 ==> t.skip(t.len() - 3)[0] == s@[end - 3] && t.skip(t.len() - 3)[1]
                == s@[end - 2] && t.skip(t.len() - 3)[2] == s@[end - 1]);
            assert(s@.take(end as int).len() == end);
            return copy_range(s, 0, end);
        }
    }
}

fn id_of(name: &[u8]) -> (r: Vec<u8>)
    ensures
        r@ == record_id(name@),
{
    let mut from = name.len();
    while from > 0 && name[from - 1] != 47
        invariant
            from <= name@.len(),
            segment_start(name@, from as int) == segment_start(name@, name@.len() as int),
        decreases from,
    {
        from = from - 1;
    }
    let last = copy_range(name, from, name.len());
    assert(last@ =~= name@.skip(from as int));
    strip_md(last.as_slice())
}

/// One record read from the bytes of its text, or the reason it is not a
/// usable one.
pub fn read_invariant_bytes(name: &[u8], text: &[u8]) -> (r: Result<Option<Invariant>, &'static str>)
    ensures
        match reading_of(name@, text@) {
            Ok(Some(rule)) => r matches Ok(Some(inv)) && inv@ == rule,
            Ok(None) => r matches Ok(None),
            Err(why) => r == Err::<Option<Invariant>, &'static str>(why),
        },
{
    let mut held: Option<bool> = None;
    let mut subject: Option<Vec<u8>> = None;
    let mut rule: Option<Vec<u8>> = None;
    let mut spellings: Vec<Vec<u8>> = Vec::new();
    let n = text.len();
    let mut at: usize = 0;
    let ghost mut done: Seq<Seq<u8>> = seq![];
    assert(text@.skip(0) =~= text@);
    while at < n
        invariant
            n == text@.len(),
            at <= n,
            lines(text@) == done + lines(text@.skip(at as int)),
            declare(done).held == held,
            declare(done).subject == (match subject {
                Some(v) => Some(v@),
                None => None::<Seq<u8>>,
            }),
            declare(done).rule == (match rule {
                Some(v) => Some(v@),
                None => None::<Seq<u8>>,
            }),
            declare(done).spellings == views(spellings@),
        decreases n - at,
    {
        let span = line_at(text, at);
        let ghost line = text@.subrange(at as int, span.end as int);
        proof {
            assert(lines(text@.skip(at as int))[0] == line);
            assert(lines(text@.skip(at as int)).drop_first() =~= lines(
                text@.skip(span.next as int),
            ));
            assert(done.push(line).drop_last() =~= done);
        }
        let ghost d0 = declare(done);
        assert(line == text@.subrange(span.start as int, span.end as int));
        let colon = index_of_colon(text, span.start, span.end);
        proof {
            lemma_index_from(line, 58, 0);
            match index_from(line, 58, 0) {
                Some(k) => {
                    assert(colon == Some((at + k) as usize));
                },
                None => {},
            }
        }
        match colon {
            None => {
                assert(declare_line(d0, line) == d0);
            },
            Some(c) => {
                let key = copy_range(text, span.start, c);
                let (a, b) = trim_range(text, c + 1, span.end);
                let value = copy_range(text, a, b);
                proof {
                    assert(key@ =~= line.take(c - at));
                    assert(text@.subrange(c + 1, span.end as int) =~= line.skip(c - at + 1));
                    assert(index_from(line, 58, 0) == Some((c - at) as int));
                    assert(value@ == trim(line.skip(c - at + 1)));
                }
                if is_key(key.as_slice(), "Held") {
                    held = Some(same(value.as_slice(), "yes".as_bytes()));
                } else if is_key(key.as_slice(), "Subject") {
                    subject = Some(value);
                } else if is_key(key.as_slice(), "Rule") {
                    rule = Some(value);
                } else if is_key(key.as_slice(), "Spelling") {
                    let ghost before = views(spellings@);
                    spellings.push(lower_exec(value.as_slice()));
                    assert(views(spellings@) =~= before.push(lower(value@)));
                }
            },
        }
        proof {
            assert(done.push(line).last() == line);
            assert(declare(done.push(line)) == declare_line(declare(done), line));
            done = done.push(line);
        }
        at = span.next;
    }
    proof {
        assert(text@.skip(at as int) =~= Seq::<u8>::empty());
        assert(lines(text@.skip(at as int)) =~= Seq::<Seq<u8>>::empty());
        assert(lines(text@) =~= done);
    }
    match held {
        None => {
            return Err(NO_HELD);
        },
        Some(false) => {
            return Ok(None);
        },
        Some(true) => {},
    }
    let (subject, rule) = match (subject, rule) {
        (Some(s), Some(r)) => (s, r),
        _ => {
            return Err(NO_SUBJECT_OR_RULE);
        },
    };
    if spellings.len() == 0 {
        return Err(NO_SPELLING);
    }
    if starts_with_exec(INVARIANTS.as_bytes(), subject.as_slice()) || starts_with_exec(
        subject.as_slice(),
        INVARIANTS.as_bytes(),
    ) {
        return Err(REACHES_THE_RECORDS);
    }
    Ok(Some(Invariant { id: id_of(name), subject, spellings, rule }))
}

/// One record read, or the reason it is not a usable one.
///
/// `Ok(None)` is a record declaring itself not holdable by a search. That
/// is a legitimate state and the record says why in its body, so the run
/// counts it rather than passing it over in silence.
pub fn read_invariant(name: &str, text: &str) -> (r: Result<Option<Invariant>, &'static str>)
    ensures
        match reading_of(name.spec_bytes(), text.spec_bytes()) {
            Ok(Some(rule)) => r matches Ok(Some(inv)) && inv@ == rule,
            Ok(None) => r matches Ok(None),
            Err(why) => r == Err::<Option<Invariant>, &'static str>(why),
        },
{
    read_invariant_bytes(name.as_bytes(), text.as_bytes())
}

// ---------------------------------------------------------------------------
// Searching a file.
/// Whether a lowered line holds one of `spellings`.
pub open spec fn holds_any(lowered: Seq<u8>, spellings: Seq<Seq<u8>>) -> bool {
    exists|i: int| 0 <= i < spellings.len() && contains(lowered, #[trigger] spellings[i])
}

/// Whether invariant `rule` reaches a file: the file's path opens with its
/// subject. Where `all` is set, every invariant reaches it.
pub open spec fn reaches(rule: Rule, name: Seq<u8>, all: bool) -> bool {
    all || starts_with(name, rule.subject)
}

/// The first `k` of `rules` that reach the file and that line `n` breaks.
pub open spec fn line_breaks(
    lowered: Seq<u8>,
    rules: Seq<Rule>,
    k: int,
    name: Seq<u8>,
    all: bool,
    n: nat,
) -> Seq<(nat, int)>
    decreases k,
{
    if k <= 0 {
        seq![]
    } else if reaches(rules[k - 1], name, all) && holds_any(lowered, rules[k - 1].spellings) {
        line_breaks(lowered, rules, k - 1, name, all, n).push((n, k - 1))
    } else {
        line_breaks(lowered, rules, k - 1, name, all, n)
    }
}

/// Every line among `ls` that breaks one of `rules`, the first of them being
/// line `n`, with the invariant it breaks. The comparison is over lowercased
/// text and is a substring match.
pub open spec fn breaks_from(
    ls: Seq<Seq<u8>>,
    rules: Seq<Rule>,
    name: Seq<u8>,
    all: bool,
    n: nat,
) -> Seq<(nat, int)>
    decreases ls.len(),
{
    if ls.len() == 0 {
        seq![]
    } else {
        line_breaks(lower(ls[0]), rules, rules.len() as int, name, all, n) + breaks_from(
            ls.drop_first(),
            rules,
            name,
            all,
            n + 1,
        )
    }
}

/// What a list of broken lines says, as the checks state it.
pub open spec fn broken_view(v: Seq<(usize, usize)>) -> Seq<(nat, int)> {
    Seq::new(v.len(), |i: int| (v[i].0 as nat, v[i].1 as int))
}

fn holds_any_exec(lowered: &[u8], spellings: &Vec<Vec<u8>>) -> (r: bool)
    ensures
        r == holds_any(lowered@, views(spellings@)),
{
    let mut i: usize = 0;
    while i < spellings.len()
        invariant
            0 <= i <= spellings@.len(),
            forall|j: int| 0 <= j < i ==> !contains(lowered@, #[trigger] views(spellings@)[j]),
        decreases spellings@.len() - i,
    {
        if contains_exec(lowered, spellings[i].as_slice()) {
            assert(contains(lowered@, views(spellings@)[i as int]));
            return true;
        }
        i = i + 1;
    }
    false
}

fn push_line_breaks(
    out: &mut Vec<(usize, usize)>,
    lowered: &[u8],
    rules: &Vec<Invariant>,
    name: &[u8],
    all: bool,
    n: usize,
)
    ensures
        broken_view(final(out)@) == broken_view(old(out)@) + line_breaks(
            lowered@,
            rules_of(rules@),
            rules@.len() as int,
            name@,
            all,
            n as nat,
        ),
{
    let ghost start = broken_view(out@);
    let mut k: usize = 0;
    while k < rules.len()
        invariant
            0 <= k <= rules@.len(),
            broken_view(out@) == start + line_breaks(
                lowered@,
                rules_of(rules@),
                k as int,
                name@,
                all,
                n as nat,
            ),
        decreases rules@.len() - k,
    {
        let inv = &rules[k];
        assert(rules_of(rules@)[k as int] == inv@);
        let reach = all || starts_with_exec(name, inv.subject.as_slice());
        if reach && holds_any_exec(lowered, &inv.spellings) {
            let ghost before = broken_view(out@);
            out.push((n, k));
            assert(broken_view(out@) =~= before.push((n as nat, k as int)));
        }
        k = k + 1;
    }
}

/// Every line of the bytes of a text that breaks one of `rules` reaching
/// the file `name`, or every one of `rules` where `all` is set.
pub fn breaks_in(text: &[u8], rules: &Vec<Invariant>, name: &[u8], all: bool) -> (r: Vec<
    (usize, usize),
>)
    requires
        text@.len() < usize::MAX,
    ensures
        broken_view(r@) == breaks_from(lines(text@), rules_of(rules@), name@, all, 1),
{
    let n = text.len();
    let mut out: Vec<(usize, usize)> = Vec::new();
    let mut at: usize = 0;
    let mut number: usize = 1;
    assert(text@.skip(0) =~= text@);
    while at < n
        invariant
            n == text@.len(),
            n < usize::MAX,
            at <= n,
            1 <= number <= at + 1,
            broken_view(out@) + breaks_from(
                lines(text@.skip(at as int)),
                rules_of(rules@),
                name@,
                all,
                number as nat,
            ) == breaks_from(lines(text@), rules_of(rules@), name@, all, 1),
        decreases n - at,
    {
        let span = line_at(text, at);
        let ghost ls = lines(text@.skip(at as int));
        let ghost one = text@.subrange(at as int, span.end as int);
        assert(ls[0] == one);
        assert(ls.drop_first() =~= lines(text@.skip(span.next as int)));
        let ghost before = broken_view(out@);
        let line = copy_range(text, span.start, span.end);
        let lowered = lower_exec(line.as_slice());
        push_line_breaks(&mut out, lowered.as_slice(), rules, name, all, number);
        assert(broken_view(out@) + breaks_from(
            lines(text@.skip(span.next as int)),
            rules_of(rules@),
            name@,
            all,
            (number + 1) as nat,
        ) =~= before + breaks_from(ls, rules_of(rules@), name@, all, number as nat));
        at = span.next;
        number = number + 1;
    }
    assert(text@.skip(at as int) =~= Seq::<u8>::empty());
    assert(lines(text@.skip(at as int)) =~= Seq::<Seq<u8>>::empty());
    assert(broken_view(out@) =~= breaks_from(lines(text@), rules_of(rules@), name@, all, 1));
    out
}

/// Every line of `text` that breaks one of `invariants`, with the line
/// number and which of them it breaks.
///
/// The comparison is over lowercased text, so one spelling covers the
/// snake, screaming and camel casings of the same mistake. It is a
/// substring match rather than a word match, deliberately: the mistake this
/// is for arrives as part of a longer name at least as often as on its own.
pub fn breaks(text: &str, invariants: &Vec<Invariant>) -> (r: Vec<(usize, usize)>)
    requires
        text.spec_bytes().len() < usize::MAX,
    ensures
        broken_view(r@) == breaks_from(
            lines(text.spec_bytes()),
            rules_of(invariants@),
            seq![],
            true,
            1,
        ),
{
    let none: Vec<u8> = Vec::new();
    breaks_in(text.as_bytes(), invariants, none.as_slice(), true)
}

// ---------------------------------------------------------------------------
// The check.
/// Whether a file in a records directory is a record: it has the extension
/// `md` and is not the readme there, which argues the shape and is not one.
pub open spec fn record_path(name: Seq<u8>) -> bool {
    has_extension(name, lit("md")) && !ends_with(name, lit("README.md"))
}

/// Whether a file in a records directory is a record.
pub fn is_a_record_bytes(name: &[u8]) -> (r: bool)
    ensures
        r == record_path(name@),
{
    has_extension_exec(name, "md".as_bytes()) && !ends_with_exec(name, "README.md".as_bytes())
}

/// Whether a file in a records directory is a record.
pub fn is_a_record(name: &str) -> (r: bool)
    ensures
        r == record_path(name.spec_bytes()),
{
    is_a_record_bytes(name.as_bytes())
}

/// Whether a tracked path is an invariant record.
pub open spec fn declares(name: Seq<u8>) -> bool {
    starts_with(name, lit(INVARIANTS)) && record_path(name)
}

/// What loading the records gave: a verdict the run stops at, or the
/// invariants held and how many records are not holdable this way.
pub enum Loaded {
    Stopped(Verdict),
    Held(Seq<Rule>, nat),
}

/// Loading the records among the first files of a tree, in order. A record
/// that cannot be read stops the run as one that could not judge, and one
/// that is not usable stops it as a refusal.
pub open spec fn load(fs: Seq<FileView>) -> Loaded
    decreases fs.len(),
{
    if fs.len() == 0 {
        Loaded::Held(seq![], 0)
    } else {
        match load(fs.drop_last()) {
            Loaded::Stopped(v) => Loaded::Stopped(v),
            Loaded::Held(rules, unheld) => {
                let f = fs.last();
                if !declares(f.name) {
                    Loaded::Held(rules, unheld)
                } else {
                    match f.bytes {
                        Err(e) => Loaded::Stopped(Verdict::CouldNotJudge(f.name + lit(": ") + e)),
                        Ok(b) => if !valid_utf8(b) {
                            Loaded::Stopped(
                                Verdict::CouldNotJudge(f.name + lit(": ") + lit(NOT_UTF8)),
                            )
                        } else {
                            match reading_of(f.name, b) {
                                Err(why) => Loaded::Stopped(
                                    Verdict::Refused(
                                        f.name + lit(" is not a usable record.\n\n") + lit(why)
                                            + seq![10u8],
                                    ),
                                ),
                                Ok(None) => Loaded::Held(rules, unheld + 1),
                                Ok(Some(rule)) => Loaded::Held(rules.push(rule), unheld),
                            }
                        },
                    }
                }
            },
        }
    }
}

/// Whether some invariant reaches a file.
pub open spec fn reaches_any(rules: Seq<Rule>, name: Seq<u8>) -> bool {
    exists|i: int| 0 <= i < rules.len() && starts_with(name, (#[trigger] rules[i]).subject)
}

/// One broken line, as a refusal names it.
pub open spec fn broken_line(name: Seq<u8>, rules: Seq<Rule>, b: (nat, int)) -> Seq<u8> {
    lit("  ") + name + lit(":") + decimal(b.0) + lit("  ") + rules[b.1].id + lit("\n      ")
        + rules[b.1].rule
}

/// Every broken line of a file, as a refusal names them.
pub open spec fn broken_lines(name: Seq<u8>, rules: Seq<Rule>, bs: Seq<(nat, int)>) -> Seq<Seq<u8>>
    decreases bs.len(),
{
    if bs.len() == 0 {
        seq![]
    } else {
        broken_lines(name, rules, bs.drop_last()).push(broken_line(name, rules, bs.last()))
    }
}

/// What the search over a tree found.
pub struct BreakTally {
    pub broken: Seq<Seq<u8>>,
    pub searched: nat,
}

/// The search over the first files of a tree: each file some invariant
/// reaches, and whose working copy reads as text, is searched.
pub open spec fn tally_breaks(fs: Seq<FileView>, rules: Seq<Rule>) -> BreakTally
    decreases fs.len(),
{
    if fs.len() == 0 {
        BreakTally { broken: seq![], searched: 0 }
    } else {
        let t = tally_breaks(fs.drop_last(), rules);
        let f = fs.last();
        if !reaches_any(rules, f.name) {
            t
        } else {
            match text_of(f) {
                None => t,
                Some(b) => BreakTally {
                    broken: t.broken + broken_lines(
                        f.name,
                        rules,
                        breaks_from(lines(b), rules, f.name, false, 1),
                    ),
                    searched: t.searched + 1,
                },
            }
        }
    }
}

/// What the check finds in a tree.
pub open spec fn invariants_verdict(listing: Result<Seq<FileView>, Seq<u8>>) -> Verdict {
    match listing {
        Err(why) => Verdict::CouldNotJudge(why),
        Ok(fs) => match load(fs) {
            Loaded::Stopped(v) => v,
            Loaded::Held(rules, unheld) => {
                let t = tally_breaks(fs, rules);
                if t.broken.len() == 0 {
                    Verdict::Nothing(
                        Some(
                            decimal(rules.len()) + lit(" held, ") + decimal(unheld) + lit(
                                " recorded as not holdable this way, ",
                            ) + decimal(t.searched) + lit(" file(s) searched"),
                        ),
                    )
                } else {
                    Verdict::Refused(
                        decimal(t.broken.len()) + lit(" line(s) break an invariant:\n\n")
                            + each_line(t.broken) + lit(INVARIANTS_REPAIR),
                    )
                }
            },
        },
    }
}

/// What loading the records gave, as the run carries it.
pub enum LoadedRecords {
    Stopped(Judged),
    Held(Vec<Invariant>, usize),
}

fn load_records(files: &Vec<TrackedFile>) -> (r: LoadedRecords)
    ensures
        match load(files_of(files@)) {
            Loaded::Stopped(v) => r matches LoadedRecords::Stopped(j) && j@ == v,
            Loaded::Held(rules, unheld) => r matches LoadedRecords::Held(invs, n) && rules_of(
                invs@,
            ) == rules && n == unheld,
        },
{
    let ghost fs = files_of(files@);
    let mut invs: Vec<Invariant> = Vec::new();
    let mut unheld: usize = 0;
    let mut i: usize = 0;
    assert(rules_of(invs@) =~= Seq::<Rule>::empty());
    assert(fs.take(0) =~= Seq::<FileView>::empty());
    while i < files.len()
        invariant
            0 <= i <= files@.len(),
            fs == files_of(files@),
            unheld <= i,
            load(fs.take(i as int)) == Loaded::Held(rules_of(invs@), unheld as nat),
        decreases files@.len() - i,
    {
        let f = &files[i];
        assert(fs.take(i + 1).drop_last() =~= fs.take(i as int));
        assert(fs.take(i + 1).last() == fs[i as int]);
        if starts_with_exec(f.name.as_slice(), INVARIANTS.as_bytes()) && is_a_record_bytes(
            f.name.as_slice(),
        ) {
            match &f.bytes {
                Err(e) => {
                    let mut why = copy_all(f.name.as_slice());
                    push_str(&mut why, ": ");
                    push_all(&mut why, e.as_slice());
                    assert(why@ =~= f.name@ + lit(": ") + e@);
                    proof {
                        lemma_load_stops(fs, i as int + 1);
                    }
                    return LoadedRecords::Stopped(Judged::CouldNotJudge(why));
                },
                Ok(bytes) => {
                    if !is_utf8(bytes.as_slice()) {
                        let mut why = copy_all(f.name.as_slice());
                        push_str(&mut why, ": ");
                        push_str(&mut why, NOT_UTF8);
                        assert(why@ =~= f.name@ + lit(": ") + lit(NOT_UTF8));
                        proof {
                            lemma_load_stops(fs, i as int + 1);
                        }
                        return LoadedRecords::Stopped(Judged::CouldNotJudge(why));
                    }
                    match read_invariant_bytes(f.name.as_slice(), bytes.as_slice()) {
                        Err(w) => {
                            let mut why = copy_all(f.name.as_slice());
                            push_str(&mut why, " is not a usable record.\n\n");
                            push_str(&mut why, w);
                            why.push(10);
                            assert(why@ =~= f.name@ + lit(" is not a usable record.\n\n") + lit(w)
                                + seq![10u8]);
                            proof {
                                lemma_load_stops(fs, i as int + 1);
                            }
                            return LoadedRecords::Stopped(Judged::Refused(why));
                        },
                        Ok(None) => {
                            unheld = unheld + 1;
                        },
                        Ok(Some(inv)) => {
                            let ghost before = rules_of(invs@);
                            invs.push(inv);
                            assert(rules_of(invs@) =~= before.push(inv@));
                        },
                    }
                },
            }
        }
        i = i + 1;
    }
    assert(fs.take(files@.len() as int) =~= fs);
    LoadedRecords::Held(invs, unheld)
}

/// Once loading stops, the later files change nothing.
proof fn lemma_load_stops(fs: Seq<FileView>, k: int)
    requires
        0 <= k <= fs.len(),
        load(fs.take(k)) is Stopped,
    ensures
        load(fs) == load(fs.take(k)),
    decreases fs.len() - k,
{
    if k < fs.len() {
        assert(fs.take(k + 1).drop_last() =~= fs.take(k));
        lemma_load_stops(fs, k + 1);
    } else {
        assert(fs.take(k) =~= fs);
    }
}

fn push_broken_lines(
    out: &mut Vec<Vec<u8>>,
    name: &[u8],
    invs: &Vec<Invariant>,
    found: &Vec<(usize, usize)>,
)
    requires
        forall|j: int| 0 <= j < found@.len() ==> (#[trigger] found@[j]).1 < invs@.len(),
    ensures
        views(final(out)@) == views(old(out)@) + broken_lines(
            name@,
            rules_of(invs@),
            broken_view(found@),
        ),
{
    let ghost start = views(out@);
    let mut i: usize = 0;
    while i < found.len()
        invariant
            0 <= i <= found@.len(),
            forall|j: int| 0 <= j < found@.len() ==> (#[trigger] found@[j]).1 < invs@.len(),
            views(out@) == start + broken_lines(
                name@,
                rules_of(invs@),
                broken_view(found@).take(i as int),
            ),
        decreases found@.len() - i,
    {
        let (line, k) = found[i];
        let inv = &invs[k];
        let mut one: Vec<u8> = Vec::new();
        push_str(&mut one, "  ");
        push_all(&mut one, name);
        push_str(&mut one, ":");
        push_decimal(&mut one, line);
        push_str(&mut one, "  ");
        push_all(&mut one, inv.id.as_slice());
        push_str(&mut one, "\n      ");
        push_all(&mut one, inv.rule.as_slice());
        let ghost before = views(out@);
        out.push(one);
        proof {
            assert(views(out@) =~= before.push(one@));
            let v = broken_view(found@);
            assert(v.take(i + 1).drop_last() =~= v.take(i as int));
            assert(v.take(i + 1).last() == v[i as int]);
            assert(rules_of(invs@)[k as int] == inv@);
            assert(one@ =~= broken_line(name@, rules_of(invs@), v[i as int]));
        }
        i = i + 1;
    }
    assert(broken_view(found@).take(found@.len() as int) =~= broken_view(found@));
}

proof fn lemma_breaks_index(
    ls: Seq<Seq<u8>>,
    rules: Seq<Rule>,
    name: Seq<u8>,
    all: bool,
    n: nat,
)
    ensures
        forall|j: int|
            0 <= j < breaks_from(ls, rules, name, all, n).len() ==> 0 <= (#[trigger] breaks_from(
                ls,
                rules,
                name,
                all,
                n,
            )[j]).1 < rules.len(),
    decreases ls.len(),
{
    if ls.len() > 0 {
        lemma_breaks_index(ls.drop_first(), rules, name, all, n + 1);
        lemma_line_breaks_index(lower(ls[0]), rules, rules.len() as int, name, all, n);
        let a = line_breaks(lower(ls[0]), rules, rules.len() as int, name, all, n);
        let b = breaks_from(ls.drop_first(), rules, name, all, n + 1);
        assert forall|j: int| 0 <= j < (a + b).len() implies 0 <= (#[trigger] (a + b)[j]).1
            < rules.len() by {
            if j >= a.len() {
                assert((a + b)[j] == b[j - a.len()]);
            } else {
                assert((a + b)[j] == a[j]);
            }
        }
    }
}

proof fn lemma_line_breaks_index(
    lowered: Seq<u8>,
    rules: Seq<Rule>,
    k: int,
    name: Seq<u8>,
    all: bool,
    n: nat,
)
    requires
        k <= rules.len(),
    ensures
        forall|j: int|
            0 <= j < line_breaks(lowered, rules, k, name, all, n).len() ==> 0 <= (
            #[trigger] line_breaks(lowered, rules, k, name, all, n)[j]).1 < k,
    decreases k,
{
    if k > 0 {
        lemma_line_breaks_index(lowered, rules, k - 1, name, all, n);
        let a = line_breaks(lowered, rules, k - 1, name, all, n);
        assert forall|j: int|
            0 <= j < line_breaks(lowered, rules, k, name, all, n).len() implies 0 <= (
            #[trigger] line_breaks(lowered, rules, k, name, all, n)[j]).1 < k by {
            if j < a.len() {
                assert(line_breaks(lowered, rules, k, name, all, n)[j] == a[j]);
            }
        }
    }
}

fn reaches_any_exec(invs: &Vec<Invariant>, name: &[u8]) -> (r: bool)
    ensures
        r == reaches_any(rules_of(invs@), name@),
{
    let mut i: usize = 0;
    while i < invs.len()
        invariant
            0 <= i <= invs@.len(),
            forall|j: int| 0 <= j < i ==> !starts_with(name@, (#[trigger] rules_of(invs@)[j]).subject),
        decreases invs@.len() - i,
    {
        assert(rules_of(invs@)[i as int] == invs@[i as int]@);
        if starts_with_exec(name, invs[i].subject.as_slice()) {
            return true;
        }
        i = i + 1;
    }
    false
}

fn search(files: &Vec<TrackedFile>, invs: &Vec<Invariant>) -> (r: (Vec<Vec<u8>>, usize))
    requires
        files_fit(Ok(files_of(files@))),
    ensures
        views(r.0@) == tally_breaks(files_of(files@), rules_of(invs@)).broken,
        r.1 == tally_breaks(files_of(files@), rules_of(invs@)).searched,
{
    let ghost fs = files_of(files@);
    let ghost rules = rules_of(invs@);
    let mut broken: Vec<Vec<u8>> = Vec::new();
    let mut searched: usize = 0;
    let mut i: usize = 0;
    while i < files.len()
        invariant
            0 <= i <= files@.len(),
            fs == files_of(files@),
            rules == rules_of(invs@),
            files_fit(Ok(fs)),
            views(broken@) == tally_breaks(fs.take(i as int), rules).broken,
            searched == tally_breaks(fs.take(i as int), rules).searched,
            searched <= i,
        decreases files@.len() - i,
    {
        let f = &files[i];
        assert(fs.take(i + 1).drop_last() =~= fs.take(i as int));
        assert(fs.take(i + 1).last() == fs[i as int]);
        if reaches_any_exec(invs, f.name.as_slice()) {
            match &f.bytes {
                Err(_) => {},
                Ok(bytes) => {
                    if is_utf8(bytes.as_slice()) {
                        searched = searched + 1;
                        assert(fs[i as int].bytes == Ok::<Seq<u8>, Seq<u8>>(bytes@));
                        let found = breaks_in(bytes.as_slice(), invs, f.name.as_slice(), false);
                        proof {
                            lemma_breaks_index(lines(bytes@), rules, f.name@, false, 1);
                            assert forall|j: int| 0 <= j < found@.len() implies (
                            #[trigger] found@[j]).1 < invs@.len() by {
                                assert(broken_view(found@)[j] == breaks_from(
                                    lines(bytes@),
                                    rules,
                                    f.name@,
                                    false,
                                    1,
                                )[j]);
                            }
                        }
                        push_broken_lines(&mut broken, f.name.as_slice(), invs, &found);
                    }
                },
            }
        }
        i = i + 1;
    }
    assert(fs.take(files@.len() as int) =~= fs);
    (broken, searched)
}

/// Refuses a tracked file that breaks an invariant a record declares.
///
/// The records are read first, in the order the tree lists them. A record
/// that cannot be read stops the run as one that could not judge, and one
/// that is not usable stops it as a refusal naming the record. Then every
/// tracked file some invariant reaches is searched.
pub fn no_invariant_is_broken(listing: &Result<Vec<TrackedFile>, Vec<u8>>) -> (r: Judged)
    requires
        files_fit(listing_of(*listing)),
    ensures
        r@ == invariants_verdict(listing_of(*listing)),
{
    let files = match listing {
        Err(why) => {
            return Judged::CouldNotJudge(copy_all(why.as_slice()));
        },
        Ok(files) => files,
    };
    let (invs, unheld) = match load_records(files) {
        LoadedRecords::Stopped(j) => {
            return j;
        },
        LoadedRecords::Held(invs, unheld) => (invs, unheld),
    };
    let (broken, searched) = search(files, &invs);
    if broken.len() == 0 {
        let mut note: Vec<u8> = Vec::new();
        push_decimal(&mut note, invs.len());
        push_str(&mut note, " held, ");
        push_decimal(&mut note, unheld);
        push_str(&mut note, " recorded as not holdable this way, ");
        push_decimal(&mut note, searched);
        push_str(&mut note, " file(s) searched");
        return Judged::Nothing(Some(note));
    }
    let mut why: Vec<u8> = Vec::new();
    push_decimal(&mut why, broken.len());
    push_str(&mut why, " line(s) break an invariant:\n\n");
    push_lines(&mut why, &broken);
    push_str(&mut why, INVARIANTS_REPAIR);
    Judged::Refused(why)
}


/// The spelling a line declares: the value of a `Spelling: value` line,
/// trimmed and lowercased, or nothing for any other line.
pub open spec fn spelling_of(line: Seq<u8>) -> Option<Seq<u8>> {
    match index_from(line, 58, 0) {
        Some(c) => if line.take(c) == lit("Spelling") {
            Some(lower(trim(line.skip(c + 1))))
        } else {
            None
        },
        None => None,
    }
}

/// Every `Spelling` line of a record adds its value: the spellings the lines
/// declare are those lines' values, in the order the lines stand, and no
/// other line adds one.
pub proof fn lemma_every_spelling_line_is_kept(ls: Seq<Seq<u8>>)
    ensures
        declare(ls).spellings == ls.filter_map(|line: Seq<u8>| spelling_of(line)),
    decreases ls.len(),
{
    if ls.len() > 0 {
        lemma_every_spelling_line_is_kept(ls.drop_last());
        let f = |line: Seq<u8>| spelling_of(line);
        let before = declare(ls.drop_last());
        let line = ls.last();
        assert(declare(ls) == declare_line(before, line));
        assert(ls.filter_map(f) == match f(line) {
            Some(v) => ls.drop_last().filter_map(f) + seq![v],
            None => ls.drop_last().filter_map(f),
        });
        match index_from(line, 58, 0) {
            Some(c) => {
                if line.take(c) == lit("Spelling") {
                    assert(line.take(c) != lit("Held") && line.take(c) != lit("Subject")
                        && line.take(c) != lit("Rule")) by {
                        reveal_strlit("Spelling");
                        reveal_strlit("Held");
                        reveal_strlit("Subject");
                        reveal_strlit("Rule");
                        vstd::string::is_ascii_spec_bytes("Spelling");
                        vstd::string::is_ascii_spec_bytes("Held");
                        vstd::string::is_ascii_spec_bytes("Subject");
                        vstd::string::is_ascii_spec_bytes("Rule");
                        assert(lit("Spelling").len() == 8);
                        assert(lit("Held").len() == 4);
                        assert(lit("Subject").len() == 7);
                        assert(lit("Rule").len() == 4);
                    }
                    assert(declare(ls).spellings =~= before.spellings.push(
                        lower(trim(line.skip(c + 1))),
                    ));
                } else {
                    assert(declare(ls).spellings == before.spellings);
                }
            },
            None => {},
        }
        assert(declare(ls).spellings =~= ls.filter_map(f));
    }
}

/// A record read as an invariant searches for the value of every one of its
/// `Spelling` lines, in the order they stand, and for nothing else.
pub proof fn lemma_a_record_searches_every_spelling(name: Seq<u8>, text: Seq<u8>)
    ensures
        reading_of(name, text) matches Ok(Some(r)) ==> r.spellings == lines(text).filter_map(
            |line: Seq<u8>| spelling_of(line),
        ),
{
    lemma_every_spelling_line_is_kept(lines(text));
}
} // verus!
