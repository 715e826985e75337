//! The locator vocabulary, and the sources nothing cites.
//!
//! A citation that names a paper leaves the reader to find the number in it.
//! The locator is where inside the source the number is, and it is a
//! vocabulary rather than prose so that a reader and a machine take the same
//! thing out of it. A source no row cites is not wrong, it is unfinished, so
//! it is named in what the run prints rather than refused.
//!
//! Refusal surface. This file decides whether a row is refused for the
//! locator it carries.

use vstd::prelude::*;
use vstd::string::StringSliceAdditionalSpecFns;
use crate::canonical::{read, reading};
use crate::json::{Node, Value, named};
use crate::paths::{has_extension, has_extension_exec};
use crate::scan::{lemma_array_value, lemma_object_value, members_value, elements_value, position};
use crate::tree::{FileView, Judged, TrackedFile, Verdict, files_fit, files_of, listing_of};
use crate::text::{
    copy_all, copy_range, decimal, each_line, lit, push_all, occurs_at, occurs_at_exec, push_decimal, push_lines,
    push_str, same, starts_with, starts_with_exec, trim, trim_range, views,
};

verus! {

/// Where the rows live.
pub const ROWS: &'static str = "register/rows/";

/// Where the sources live.
pub const SOURCES: &'static str = "register/sources/";

/// One shape a locator may be written in: the words that open its parts, in
/// order, and the shape written out, as a refusal prints it.
pub struct Shape {
    pub words: Vec<&'static str>,
    pub says: &'static str,
}

/// How many shapes a locator may take.
pub open spec fn shape_count() -> nat {
    6
}

/// The words of shape `k`.
pub open spec fn shape_words(k: int) -> Seq<&'static str> {
    if k == 0 {
        seq!["page"]
    } else if k == 1 {
        seq!["equation"]
    } else if k == 2 {
        seq!["page", "equation"]
    } else if k == 3 {
        seq!["table", "row"]
    } else if k == 4 {
        seq!["table", "column"]
    } else {
        seq!["figure", "curve"]
    }
}

/// Shape `k` written out.
pub open spec fn shape_says(k: int) -> &'static str {
    if k == 0 {
        "page 1197"
    } else if k == 1 {
        "equation 12"
    } else if k == 2 {
        "page 1197, equation 12"
    } else if k == 3 {
        "table IV, row 7"
    } else if k == 4 {
        "table IV, column 3"
    } else {
        "figure 2, curve as-grown"
    }
}

fn shape(words: Vec<&'static str>, says: &'static str) -> (r: Shape)
    ensures
        r.words@ == words@,
        r.says == says,
{
    Shape { words, says }
}

/// Every shape a locator may take.
///
/// The set is closed and it is small. A page and an equation together is
/// here because a transcription owes a locator resolving to a table with a
/// row or a column, or to a page and an equation.
pub fn shapes() -> (r: Vec<Shape>)
    ensures
        r@.len() == shape_count(),
        forall|k: int|
            0 <= k < r@.len() ==> (#[trigger] r@[k]).words@ == shape_words(k) && r@[k].says
                == shape_says(k),
{
    let mut r: Vec<Shape> = Vec::new();
    let mut w: Vec<&'static str> = Vec::new();
    w.push("page");
    r.push(shape(w, "page 1197"));
    let mut w: Vec<&'static str> = Vec::new();
    w.push("equation");
    r.push(shape(w, "equation 12"));
    let mut w: Vec<&'static str> = Vec::new();
    w.push("page");
    w.push("equation");
    r.push(shape(w, "page 1197, equation 12"));
    let mut w: Vec<&'static str> = Vec::new();
    w.push("table");
    w.push("row");
    r.push(shape(w, "table IV, row 7"));
    let mut w: Vec<&'static str> = Vec::new();
    w.push("table");
    w.push("column");
    r.push(shape(w, "table IV, column 3"));
    let mut w: Vec<&'static str> = Vec::new();
    w.push("figure");
    w.push("curve");
    r.push(shape(w, "figure 2, curve as-grown"));
    assert(r@[0].words@ =~= shape_words(0));
    assert(r@[1].words@ =~= shape_words(1));
    assert(r@[2].words@ =~= shape_words(2));
    assert(r@[3].words@ =~= shape_words(3));
    assert(r@[4].words@ =~= shape_words(4));
    assert(r@[5].words@ =~= shape_words(5));
    r
}

// ---------------------------------------------------------------------------
// Reading a locator.
/// The separator between the parts of a locator: a comma and one space.
pub open spec fn separator() -> Seq<u8> {
    seq![44u8, 32u8]
}

/// Where the first separator in `s` from `i` on begins.
pub open spec fn separator_from(s: Seq<u8>, i: int) -> Option<int>
    decreases s.len() - i,
{
    if !(0 <= i < s.len()) {
        None
    } else if occurs_at(s, separator(), i) {
        Some(i)
    } else {
        separator_from(s, i + 1)
    }
}

pub proof fn lemma_separator_from(s: Seq<u8>, i: int)
    ensures
        separator_from(s, i) matches Some(j) ==> i <= j && j + 2 <= s.len(),
    decreases s.len() - i,
{
    if 0 <= i < s.len() && !occurs_at(s, separator(), i) {
        lemma_separator_from(s, i + 1);
    }
}

/// `s` split at each separator, as `split` splits it: an empty text is one
/// empty piece.
pub open spec fn pieces(s: Seq<u8>) -> Seq<Seq<u8>>
    decreases s.len(),
{
    match separator_from(s, 0) {
        None => seq![s],
        Some(i) => {
            proof {
                lemma_separator_from(s, 0);
            }
            seq![s.take(i)] + pieces(s.skip(i + 2))
        },
    }
}

/// Where the first space in `s` is.
pub open spec fn space_from(s: Seq<u8>, i: int) -> Option<int>
    decreases s.len() - i,
{
    if !(0 <= i < s.len()) {
        None
    } else if s[i] == 32 {
        Some(i)
    } else {
        space_from(s, i + 1)
    }
}

proof fn lemma_space_from(s: Seq<u8>, i: int)
    ensures
        space_from(s, i) matches Some(j) ==> i <= j < s.len(),
    decreases s.len() - i,
{
    if 0 <= i < s.len() && s[i] != 32 {
        lemma_space_from(s, i + 1);
    }
}

/// One part split into the word opening it and what follows it, or nothing
/// where it has no space, nothing after its word, or what follows has
/// whitespace at either end.
pub open spec fn part_of(p: Seq<u8>) -> Option<(Seq<u8>, Seq<u8>)> {
    match space_from(p, 0) {
        None => None,
        Some(i) => {
            let rest = p.skip(i + 1);
            if rest.len() == 0 || trim(rest) != rest {
                None
            } else {
                Some((p.take(i), rest))
            }
        },
    }
}

/// The parts of the first `k` pieces, or nothing where one does not split.
pub open spec fn parts_upto(ps: Seq<Seq<u8>>, k: int) -> Option<Seq<(Seq<u8>, Seq<u8>)>>
    decreases k,
{
    if k <= 0 {
        Some(seq![])
    } else {
        match parts_upto(ps, k - 1) {
            None => None,
            Some(done) => match part_of(ps[k - 1]) {
                None => None,
                Some(p) => Some(done.push(p)),
            },
        }
    }
}

/// A locator split into the word opening each part and what follows it, or
/// nothing where it does not split.
pub open spec fn locator_parts(s: Seq<u8>) -> Option<Seq<(Seq<u8>, Seq<u8>)>> {
    parts_upto(pieces(s), pieces(s).len() as int)
}

/// Whether the words of `parts` are those of shape `k`.
pub open spec fn is_shape(parts: Seq<(Seq<u8>, Seq<u8>)>, k: int) -> bool {
    &&& parts.len() == shape_words(k).len()
    &&& forall|j: int| 0 <= j < parts.len() ==> (#[trigger] parts[j]).0 == lit(shape_words(k)[j])
}

/// Whether a locator is in the vocabulary: it splits, and its words are
/// those of one of the shapes.
pub open spec fn in_vocabulary(s: Seq<u8>) -> bool {
    match locator_parts(s) {
        None => false,
        Some(parts) => fits_a_shape(parts),
    }
}

/// Whether the words of `parts` are those of one of the shapes.
pub open spec fn fits_a_shape(parts: Seq<(Seq<u8>, Seq<u8>)>) -> bool {
    exists|k: int| 0 <= k < shape_count() && #[trigger] is_shape(parts, k)
}

/// What a list of parts holds, as the checks state it.
pub open spec fn parts_view(v: Seq<(Vec<u8>, Vec<u8>)>) -> Seq<(Seq<u8>, Seq<u8>)> {
    Seq::new(v.len(), |i: int| (v[i].0@, v[i].1@))
}

fn separator_at(s: &[u8], from: usize) -> (r: Option<usize>)
    requires
        from <= s@.len(),
    ensures
        match separator_from(s@.skip(from as int), 0) {
            Some(i) => r == Some((from + i) as usize),
            None => r is None,
        },
        r matches Some(j) ==> from <= j && j + 2 <= s@.len(),
{
    let ghost t = s@.skip(from as int);
    let mut i = from;
    while i < s.len()
        invariant
            from <= i <= s@.len(),
            t == s@.skip(from as int),
            separator_from(t, 0) == separator_from(t, i - from),
        decreases s@.len() - i,
    {
        let sep: [u8; 2] = [44, 32];
        let found = occurs_at_exec(s, sep.as_slice(), i);
        proof {
            assert(sep@ =~= separator());
            if occurs_at(s@, separator(), i as int) {
                assert(t.subrange(i - from, i - from + 2) =~= s@.subrange(i as int, i + 2));
            }
            if occurs_at(t, separator(), i - from) {
                assert(t.subrange(i - from, i - from + 2) =~= s@.subrange(i as int, i + 2));
            }
        }
        if found {
            return Some(i);
        }
        i = i + 1;
    }
    None
}

fn part_exec(s: &[u8], from: usize, to: usize) -> (r: Option<(Vec<u8>, Vec<u8>)>)
    requires
        from <= to <= s@.len(),
    ensures
        match part_of(s@.subrange(from as int, to as int)) {
            Some((w, rest)) => r matches Some((a, b)) && a@ == w && b@ == rest,
            None => r is None,
        },
{
    let ghost p = s@.subrange(from as int, to as int);
    proof {
        lemma_space_from(p, 0);
    }
    let mut i = from;
    while i < to && s[i] != 32
        invariant
            from <= i <= to <= s@.len(),
            p == s@.subrange(from as int, to as int),
            space_from(p, 0) == space_from(p, i - from),
        decreases to - i,
    {
        assert(p[i - from] == s@[i as int]);
        i = i + 1;
    }
    if i == to {
        return None;
    }
    assert(p[i - from] == s@[i as int]);
    assert(space_from(p, 0) == Some((i - from) as int));
    let rest = copy_range(s, i + 1, to);
    assert(rest@ =~= p.skip(i - from + 1));
    if rest.len() == 0 {
        return None;
    }
    let (a, b) = trim_range(s, i + 1, to);
    if !(a == i + 1 && b == to) {
        proof {
            if trim(rest@) == rest@ {
                assert(s@.subrange(a as int, b as int).len() == rest@.len());
            }
        }
        return None;
    }
    let word = copy_range(s, from, i);
    assert(word@ =~= p.take(i - from));
    Some((word, rest))
}

/// A locator split into the word opening each part and what follows it, or
/// nothing where it does not split.
///
/// The separator between parts is a comma and one space, and the separator
/// inside a part is one space. Both are exact. A locator written with two
/// spaces, or with a comma and none, is refused rather than tidied.
pub fn parts(locator: &[u8]) -> (r: Option<Vec<(Vec<u8>, Vec<u8>)>>)
    ensures
        match locator_parts(locator@) {
            Some(ps) => r matches Some(v) && parts_view(v@) == ps,
            None => r is None,
        },
{
    let mut out: Vec<(Vec<u8>, Vec<u8>)> = Vec::new();
    let mut from: usize = 0;
    let ghost all = pieces(locator@);
    let ghost mut k: int = 0;
    let n = locator.len();
    assert(locator@.skip(0) =~= locator@);
    loop
        invariant
            n == locator@.len(),
            from <= locator@.len(),
            0 <= k <= all.len(),
            all == pieces(locator@),
            all.skip(k) == pieces(locator@.skip(from as int)),
            parts_upto(all, k) == Some(parts_view(out@)),
        decreases locator@.len() - from,
    {
        let ghost rest = locator@.skip(from as int);
        let sep = separator_at(locator, from);
        let to: usize = if sep.is_some() {
            sep.unwrap()
        } else {
            locator.len()
        };
        proof {
            lemma_separator_from(rest, 0);
            match separator_from(rest, 0) {
                Some(i) => {
                    assert(i + 2 <= rest.len());
                    assert(sep == Some((from + i) as usize));
                    assert(to == from + i);
                    assert(pieces(rest) == seq![rest.take(i)] + pieces(rest.skip(i + 2)));
                    assert(rest.take(i) =~= locator@.subrange(from as int, to as int));
                    assert(rest.skip(i + 2) =~= locator@.skip(to + 2));
                },
                None => {
                    assert(pieces(rest) == seq![rest]);
                    assert(rest =~= locator@.subrange(from as int, to as int));
                },
            }
            assert(pieces(rest).len() >= 1);
            assert(k < all.len());
            assert(all.skip(k)[0] == all[k]);
            assert(all[k] == locator@.subrange(from as int, to as int));
        }
        match part_exec(locator, from, to) {
            None => {
                proof {
                    lemma_parts_none(all, k + 1);
                }
                return None;
            },
            Some(p) => {
                let ghost before = parts_view(out@);
                out.push(p);
                assert(parts_view(out@) =~= before.push((out@.last().0@, out@.last().1@)));
            },
        }
        proof {
            k = k + 1;
        }
        if sep.is_none() {
            proof {
                assert(all.skip(k - 1) == seq![all[k - 1]]);
                assert(all.len() == k) by {
                    assert(all.skip(k - 1).len() == 1);
                }
            }
            return Some(out);
        }
        assert(to + 2 <= locator@.len());
        assert(all.skip(k) =~= all.skip(k - 1).drop_first());
        from = to + 2;
    }
}

/// Once a piece does not split, the locator does not.
proof fn lemma_parts_none(ps: Seq<Seq<u8>>, k: int)
    requires
        0 < k <= ps.len(),
        parts_upto(ps, k) is None,
    ensures
        parts_upto(ps, ps.len() as int) is None,
    decreases ps.len() - k,
{
    if k < ps.len() {
        lemma_parts_none(ps, k + 1);
    }
}

fn matches_shape(ps: &Vec<(Vec<u8>, Vec<u8>)>, words: &Vec<&'static str>) -> (r: bool)
    ensures
        r == (ps@.len() == words@.len() && forall|j: int|
            0 <= j < ps@.len() ==> (#[trigger] parts_view(ps@)[j]).0 == lit(words@[j])),
{
    if ps.len() != words.len() {
        return false;
    }
    let mut j: usize = 0;
    while j < ps.len()
        invariant
            ps@.len() == words@.len(),
            0 <= j <= ps@.len(),
            forall|i: int| 0 <= i < j ==> (#[trigger] parts_view(ps@)[i]).0 == lit(words@[i]),
        decreases ps@.len() - j,
    {
        if !same(ps[j].0.as_slice(), words[j].as_bytes()) {
            assert(parts_view(ps@)[j as int].0 != lit(words@[j as int]));
            return false;
        }
        j = j + 1;
    }
    true
}

/// Whether the bytes of a locator are in the vocabulary.
pub fn in_the_vocabulary_bytes(locator: &[u8]) -> (r: bool)
    ensures
        r == in_vocabulary(locator@),
{
    let ps = match parts(locator) {
        None => {
            return false;
        },
        Some(ps) => ps,
    };
    let all = shapes();
    let mut k: usize = 0;
    while k < all.len()
        invariant
            0 <= k <= all@.len(),
            all@.len() == shape_count(),
            forall|i: int|
                0 <= i < all@.len() ==> (#[trigger] all@[i]).words@ == shape_words(i)
                    && all@[i].says == shape_says(i),
            locator_parts(locator@) == Some(parts_view(ps@)),
            forall|i: int| 0 <= i < k ==> !#[trigger] is_shape(parts_view(ps@), i),
        decreases all@.len() - k,
    {
        assert(all@[k as int].words@ == shape_words(k as int));
        if matches_shape(&ps, &all[k].words) {
            assert(is_shape(parts_view(ps@), k as int));
            assert(fits_a_shape(parts_view(ps@)));
            return true;
        }
        k = k + 1;
    }
    false
}

/// Whether a locator is in the vocabulary.
pub fn in_the_vocabulary(locator: &str) -> (r: bool)
    ensures
        r == in_vocabulary(locator.spec_bytes()),
{
    in_the_vocabulary_bytes(locator.as_bytes())
}

/// What the refusal says between the rows it names and the shapes.
pub const SHAPES_OPENING: &'static str = "\nA locator says where inside the source the number is, in one of these shapes:\n\n";

/// What the refusal says after the shapes.
pub const SHAPES_CLOSING: &'static str = "\nThe words are the ones above, in lower case, and what follows each one is what\nthe publication printed. Parts are separated by a comma and one space. The\nabbreviations a citation is usually written with, p. and Fig. and Tab., are not\nin it: a locator is followed rather than read, and the reader following it is\nas often a program as a person.\n";

/// The first `k` shapes written out, a line each.
pub open spec fn shape_lines(k: int) -> Seq<u8>
    decreases k,
{
    if k <= 0 {
        seq![]
    } else {
        shape_lines(k - 1) + lit("  ") + lit(shape_says(k - 1)) + seq![10u8]
    }
}

/// What a run says when a locator is not in the vocabulary.
pub open spec fn locator_refusal(wrong: Seq<Seq<u8>>) -> Seq<u8> {
    decimal(wrong.len()) + lit(" row(s) carry a locator that is not in the vocabulary:\n\n")
        + each_line(wrong) + lit(SHAPES_OPENING) + shape_lines(shape_count() as int) + lit(
        SHAPES_CLOSING,
    )
}

/// What a run says when a locator is not in the vocabulary.
pub fn refusal(wrong: &Vec<Vec<u8>>) -> (r: Vec<u8>)
    ensures
        r@ == locator_refusal(views(wrong@)),
{
    let mut why: Vec<u8> = Vec::new();
    push_decimal(&mut why, wrong.len());
    push_str(&mut why, " row(s) carry a locator that is not in the vocabulary:\n\n");
    push_lines(&mut why, wrong);
    push_str(&mut why, SHAPES_OPENING);
    let all = shapes();
    let ghost head = why@;
    let mut k: usize = 0;
    while k < all.len()
        invariant
            0 <= k <= all@.len(),
            all@.len() == shape_count(),
            forall|i: int|
                0 <= i < all@.len() ==> (#[trigger] all@[i]).words@ == shape_words(i)
                    && all@[i].says == shape_says(i),
            why@ == head + shape_lines(k as int),
        decreases all@.len() - k,
    {
        push_str(&mut why, "  ");
        push_str(&mut why, all[k].says);
        why.push(10);
        k = k + 1;
    }
    push_str(&mut why, SHAPES_CLOSING);
    why
}

/// Whether a tracked path is a record in one of the register's trees.
pub open spec fn record_under(name: Seq<u8>, under: Seq<u8>) -> bool {
    starts_with(name, under) && has_extension(name, lit("json"))
}

/// Whether a tracked path is a record in one of the register's trees.
pub fn is_a_record(name: &[u8], under: &[u8]) -> (r: bool)
    ensures
        r == record_under(name@, under@),
{
    starts_with_exec(name, under) && has_extension_exec(name, "json".as_bytes())
}

// ---------------------------------------------------------------------------
// What a record holds, as this part reads it.
/// The member of an object named `name`, where it is an object with one.
pub open spec fn member_of(v: Value, name: Seq<u8>) -> Option<Value> {
    match v {
        Value::Object(ms) => match named(ms, name) {
            Some(i) => Some(ms[i].1),
            None => None,
        },
        _ => None,
    }
}

/// The member named `name` of a value that may be absent.
pub open spec fn member_in(v: Option<Value>, name: Seq<u8>) -> Option<Value> {
    match v {
        Some(v) => member_of(v, name),
        None => None,
    }
}

/// The text a value holds, where it is a string.
pub open spec fn text_in(v: Option<Value>) -> Option<Seq<u8>> {
    match v {
        Some(Value::Text(t)) => Some(t),
        _ => None,
    }
}

/// The elements a value holds, where it is an array, and none otherwise.
pub open spec fn elements_in(v: Option<Value>) -> Seq<Value> {
    match v {
        Some(Value::Array(es)) => es,
        _ => seq![],
    }
}

proof fn lemma_named_bound(ms: Seq<(Seq<u8>, Value)>, name: Seq<u8>)
    ensures
        named(ms, name) matches Some(i) ==> 0 <= i < ms.len(),
    decreases ms.len(),
{
    if ms.len() > 0 {
        lemma_named_bound(ms.drop_last(), name);
    }
}

impl Node {
    /// The member named `name`, where this is an object with one.
    pub fn member(&self, name: &Vec<u8>) -> (r: Option<&Node>)
        ensures
            match member_of(self.value(), name@) {
                Some(v) => r matches Some(n) && n.value() == v,
                None => r is None,
            },
    {
        match self {
            Node::Object(members) => {
                proof {
                    lemma_object_value(*members);
                    lemma_named_bound(members_value(members@), name@);
                }
                match position(members, name) {
                    Some(i) => Some(&members[i].1),
                    None => None,
                }
            },
            _ => None,
        }
    }

    /// The text this holds, where it is a string.
    pub fn text(&self) -> (r: Option<&Vec<u8>>)
        ensures
            match text_in(Some(self.value())) {
                Some(t) => r matches Some(b) && b@ == t,
                None => r is None,
            },
    {
        match self {
            Node::Text(t) => Some(t),
            _ => None,
        }
    }

    /// The elements this holds, where it is an array.
    pub fn elements(&self) -> (r: Option<&Vec<Node>>)
        ensures
            match Some(self.value()) {
                Some(Value::Array(es)) => r matches Some(v) && elements_value(v@) == es,
                _ => r is None,
            },
    {
        match self {
            Node::Array(elements) => {
                proof {
                    lemma_array_value(*elements);
                }
                Some(elements)
            },
            _ => None,
        }
    }
}

// ---------------------------------------------------------------------------
// The check.
/// The sources the links of a chain cite.
pub open spec fn cited_by(chain: Seq<Value>) -> Seq<Seq<u8>>
    decreases chain.len(),
{
    if chain.len() == 0 {
        seq![]
    } else {
        match text_in(member_of(chain.last(), lit("source"))) {
            Some(s) => cited_by(chain.drop_last()).push(s),
            None => cited_by(chain.drop_last()),
        }
    }
}

/// What the walk over the rows found.
pub struct RowTally {
    pub wrong: Seq<Seq<u8>>,
    pub rows: nat,
    pub without: nat,
    pub unread: nat,
    pub cited: Seq<Seq<u8>>,
}

/// The walk over the rows among the first files of a tree.
#[verifier::opaque]
pub open spec fn tally_rows(fs: Seq<FileView>) -> RowTally
    decreases fs.len(),
{
    if fs.len() == 0 {
        RowTally { wrong: seq![], rows: 0, without: 0, unread: 0, cited: seq![] }
    } else {
        let t = tally_rows(fs.drop_last());
        let f = fs.last();
        if !record_under(f.name, lit(ROWS)) {
            t
        } else {
            match f.bytes {
                Err(_) => RowTally { unread: t.unread + 1, ..t },
                Ok(b) => match reading(b) {
                    Err(_) => RowTally { unread: t.unread + 1, ..t },
                    Ok(v) => {
                        let provenance = member_of(v, lit("provenance"));
                        let cited = t.cited + cited_by(
                            elements_in(member_in(provenance, lit("chain"))),
                        );
                        match text_in(member_in(provenance, lit("locator"))) {
                            None => RowTally {
                                rows: t.rows + 1,
                                without: t.without + 1,
                                cited,
                                ..t
                            },
                            Some(l) => if in_vocabulary(l) {
                                RowTally { rows: t.rows + 1, cited, ..t }
                            } else {
                                RowTally {
                                    rows: t.rows + 1,
                                    wrong: t.wrong.push(lit("  ") + f.name + lit("\n      ") + l),
                                    cited,
                                    ..t
                                }
                            },
                        }
                    },
                },
            }
        }
    }
}

/// What the walk over the sources found.
pub struct SourceTally {
    pub sources: nat,
    pub unread: nat,
    pub uncited: Seq<Seq<u8>>,
}

/// The walk over the sources among the first files of a tree.
#[verifier::opaque]
pub open spec fn tally_sources(fs: Seq<FileView>, cited: Seq<Seq<u8>>) -> SourceTally
    decreases fs.len(),
{
    if fs.len() == 0 {
        SourceTally { sources: 0, unread: 0, uncited: seq![] }
    } else {
        let t = tally_sources(fs.drop_last(), cited);
        let f = fs.last();
        if !record_under(f.name, lit(SOURCES)) {
            t
        } else {
            match f.bytes {
                Err(_) => SourceTally { unread: t.unread + 1, ..t },
                Ok(b) => match reading(b) {
                    Err(_) => SourceTally { unread: t.unread + 1, ..t },
                    Ok(v) => match text_in(member_of(v, lit("id"))) {
                        Some(id) => if cited.contains(id) {
                            SourceTally { sources: t.sources + 1, ..t }
                        } else {
                            SourceTally {
                                sources: t.sources + 1,
                                uncited: t.uncited.push(f.name),
                                ..t
                            }
                        },
                        None => SourceTally {
                            sources: t.sources + 1,
                            uncited: t.uncited.push(f.name),
                            ..t
                        },
                    },
                },
            }
        }
    }
}

/// The uncited sources, as the note names them.
pub open spec fn uncited_lines(names: Seq<Seq<u8>>) -> Seq<u8>
    decreases names.len(),
{
    if names.len() == 0 {
        seq![]
    } else {
        uncited_lines(names.drop_last()) + lit("\n  ") + names.last()
    }
}

/// The note of a run that refused nothing: how many rows and sources were
/// read, the sources no row cites, the rows with no locator this could read,
/// and how many records could not be read.
pub open spec fn note_parts(
    rows: nat,
    without: nat,
    unread: nat,
    sources: nat,
    uncited: Seq<Seq<u8>>,
) -> Seq<u8> {
    decimal(rows) + lit(" row(s) read under ") + lit(ROWS) + lit(", ") + decimal(sources) + lit(
        " source(s) under ",
    ) + lit(SOURCES) + (if uncited.len() > 0 {
        lit(", ") + decimal(uncited.len()) + lit(" that no row cites:") + uncited_lines(uncited)
    } else {
        seq![]
    }) + (if without > 0 {
        lit("\n") + decimal(without) + lit(" row(s) carry no locator this could read")
    } else {
        seq![]
    }) + (if unread > 0 {
        lit("\n") + decimal(unread) + lit(" record(s) could not be read")
    } else {
        seq![]
    })
}

/// The note of a run that refused nothing.
pub open spec fn provenance_note(r: RowTally, s: SourceTally) -> Seq<u8> {
    note_parts(r.rows, r.without, r.unread + s.unread, s.sources, s.uncited)
}

/// What the check finds in a tree.
pub open spec fn provenance_verdict(listing: Result<Seq<FileView>, Seq<u8>>) -> Verdict {
    match listing {
        Err(why) => Verdict::CouldNotJudge(why),
        Ok(fs) => {
            let r = tally_rows(fs);
            if r.wrong.len() > 0 {
                Verdict::Refused(locator_refusal(r.wrong))
            } else {
                Verdict::Nothing(Some(provenance_note(r, tally_sources(fs, r.cited))))
            }
        },
    }
}

fn push_cited(cited: &mut Vec<Vec<u8>>, chain: &Vec<Node>)
    ensures
        views(final(cited)@) == views(old(cited)@) + cited_by(elements_value(chain@)),
{
    let ghost start = views(cited@);
    let ghost es = elements_value(chain@);
    let source = copy_all("source".as_bytes());
    let mut i: usize = 0;
    while i < chain.len()
        invariant
            0 <= i <= chain@.len(),
            es == elements_value(chain@),
            source@ == lit("source"),
            views(cited@) == start + cited_by(es.take(i as int)),
        decreases chain@.len() - i,
    {
        assert(es.take(i + 1).drop_last() =~= es.take(i as int));
        assert(es.take(i + 1).last() == chain@[i as int].value());
        match chain[i].member(&source) {
            Some(link) => match link.text() {
                Some(t) => {
                    let ghost before = views(cited@);
                    cited.push(copy_all(t.as_slice()));
                    assert(views(cited@) =~= before.push(t@));
                },
                None => {},
            },
            None => {},
        }
        i = i + 1;
    }
    assert(es.take(chain@.len() as int) =~= es);
}

fn walk_rows(files: &Vec<TrackedFile>) -> (r: (Vec<Vec<u8>>, usize, usize, usize, Vec<Vec<u8>>))
    requires
        files_fit(Ok(files_of(files@))),
    ensures
        views(r.0@) == tally_rows(files_of(files@)).wrong,
        r.1 == tally_rows(files_of(files@)).rows,
        r.2 == tally_rows(files_of(files@)).without,
        r.3 == tally_rows(files_of(files@)).unread,
        views(r.4@) == tally_rows(files_of(files@)).cited,
        r.1 + r.3 <= files@.len(),
{
    let ghost fs = files_of(files@);
    reveal(tally_rows);
    let provenance_name = copy_all("provenance".as_bytes());
    let chain_name = copy_all("chain".as_bytes());
    let locator_name = copy_all("locator".as_bytes());
    let mut wrong: Vec<Vec<u8>> = Vec::new();
    let mut cited: Vec<Vec<u8>> = Vec::new();
    let mut rows: usize = 0;
    let mut without: usize = 0;
    let mut unread: usize = 0;
    let mut i: usize = 0;
    while i < files.len()
        invariant
            0 <= i <= files@.len(),
            fs == files_of(files@),
            files_fit(Ok(fs)),
            provenance_name@ == lit("provenance"),
            chain_name@ == lit("chain"),
            locator_name@ == lit("locator"),
            views(wrong@) == tally_rows(fs.take(i as int)).wrong,
            views(cited@) == tally_rows(fs.take(i as int)).cited,
            rows == tally_rows(fs.take(i as int)).rows,
            without == tally_rows(fs.take(i as int)).without,
            unread == tally_rows(fs.take(i as int)).unread,
            rows + unread <= i,
            without <= rows,
        decreases files@.len() - i,
    {
        let f = &files[i];
        assert(fs.take(i + 1).drop_last() =~= fs.take(i as int));
        assert(fs.take(i + 1).last() == fs[i as int]);
        reveal(tally_rows);
        if is_a_record(f.name.as_slice(), ROWS.as_bytes()) {
            match &f.bytes {
                Err(_) => {
                    unread = unread + 1;
                },
                Ok(bytes) => {
                    assert(fs[i as int].bytes == Ok::<Seq<u8>, Seq<u8>>(bytes@));
                    match read(bytes.as_slice()) {
                        Err(_) => {
                            unread = unread + 1;
                        },
                        Ok(record) => {
                            rows = rows + 1;
                            let provenance = record.member(&provenance_name);
                            match provenance {
                                Some(p) => match p.member(&chain_name) {
                                    Some(c) => match c.elements() {
                                        Some(chain) => {
                                            push_cited(&mut cited, chain);
                                        },
                                        None => {
                                            assert(cited_by(seq![]) =~= Seq::<Seq<u8>>::empty());
                                            assert(views(cited@) =~= views(cited@) + cited_by(
                                                seq![],
                                            ));
                                        },
                                    },
                                    None => {
                                        assert(views(cited@) =~= views(cited@) + cited_by(
                                            seq![],
                                        ));
                                    },
                                },
                                None => {
                                    assert(views(cited@) =~= views(cited@) + cited_by(seq![]));
                                },
                            }
                            let locator = match provenance {
                                Some(p) => match p.member(&locator_name) {
                                    Some(l) => l.text(),
                                    None => None,
                                },
                                None => None,
                            };
                            match locator {
                                None => {
                                    without = without + 1;
                                },
                                Some(l) => {
                                    if !in_the_vocabulary_bytes(l.as_slice()) {
                                        let mut one: Vec<u8> = Vec::new();
                                        push_str(&mut one, "  ");
                                        push_all(&mut one, f.name.as_slice());
                                        push_str(&mut one, "\n      ");
                                        push_all(&mut one, l.as_slice());
                                        let ghost before = views(wrong@);
                                        wrong.push(one);
                                        assert(views(wrong@) =~= before.push(one@));
                                    }
                                },
                            }
                        },
                    }
                },
            }
        }
        i = i + 1;
    }
    assert(fs.take(files@.len() as int) =~= fs);
    reveal(tally_rows);
    (wrong, rows, without, unread, cited)
}

fn is_cited(cited: &Vec<Vec<u8>>, id: &[u8]) -> (r: bool)
    ensures
        r == views(cited@).contains(id@),
{
    let mut i: usize = 0;
    while i < cited.len()
        invariant
            0 <= i <= cited@.len(),
            forall|j: int| 0 <= j < i ==> views(cited@)[j] != id@,
        decreases cited@.len() - i,
    {
        if same(cited[i].as_slice(), id) {
            assert(views(cited@)[i as int] == id@);
            return true;
        }
        i = i + 1;
    }
    false
}

fn walk_sources(files: &Vec<TrackedFile>, cited: &Vec<Vec<u8>>) -> (r: (usize, usize, Vec<Vec<u8>>))
    requires
        files_fit(Ok(files_of(files@))),
    ensures
        r.0 == tally_sources(files_of(files@), views(cited@)).sources,
        r.1 == tally_sources(files_of(files@), views(cited@)).unread,
        views(r.2@) == tally_sources(files_of(files@), views(cited@)).uncited,
        r.0 + r.1 <= files@.len(),
{
    let ghost fs = files_of(files@);
    reveal(tally_sources);
    let id_name = copy_all("id".as_bytes());
    let mut sources: usize = 0;
    let mut unread: usize = 0;
    let mut uncited: Vec<Vec<u8>> = Vec::new();
    let mut i: usize = 0;
    while i < files.len()
        invariant
            0 <= i <= files@.len(),
            fs == files_of(files@),
            files_fit(Ok(fs)),
            id_name@ == lit("id"),
            sources == tally_sources(fs.take(i as int), views(cited@)).sources,
            unread == tally_sources(fs.take(i as int), views(cited@)).unread,
            views(uncited@) == tally_sources(fs.take(i as int), views(cited@)).uncited,
            sources + unread <= i,
        decreases files@.len() - i,
    {
        let f = &files[i];
        assert(fs.take(i + 1).drop_last() =~= fs.take(i as int));
        assert(fs.take(i + 1).last() == fs[i as int]);
        reveal(tally_sources);
        if is_a_record(f.name.as_slice(), SOURCES.as_bytes()) {
            match &f.bytes {
                Err(_) => {
                    unread = unread + 1;
                },
                Ok(bytes) => {
                    assert(fs[i as int].bytes == Ok::<Seq<u8>, Seq<u8>>(bytes@));
                    match read(bytes.as_slice()) {
                        Err(_) => {
                            unread = unread + 1;
                        },
                        Ok(record) => {
                            sources = sources + 1;
                            let known = match record.member(&id_name) {
                                Some(n) => match n.text() {
                                    Some(id) => is_cited(cited, id.as_slice()),
                                    None => false,
                                },
                                None => false,
                            };
                            if !known {
                                let ghost before = views(uncited@);
                                uncited.push(copy_all(f.name.as_slice()));
                                assert(views(uncited@) =~= before.push(f.name@));
                            }
                        },
                    }
                },
            }
        }
        i = i + 1;
    }
    assert(fs.take(files@.len() as int) =~= fs);
    reveal(tally_sources);
    (sources, unread, uncited)
}

#[verifier::rlimit(30)]
fn note_of_provenance(
    rows: usize,
    without: usize,
    unread: usize,
    sources: usize,
    uncited: &Vec<Vec<u8>>,
) -> (r: Vec<u8>)
    ensures
        r@ == note_parts(
            rows as nat,
            without as nat,
            unread as nat,
            sources as nat,
            views(uncited@),
        ),
{
    let mut note: Vec<u8> = Vec::new();
    push_decimal(&mut note, rows);
    push_str(&mut note, " row(s) read under ");
    push_str(&mut note, ROWS);
    push_str(&mut note, ", ");
    push_decimal(&mut note, sources);
    push_str(&mut note, " source(s) under ");
    push_str(&mut note, SOURCES);
    let ghost a = note@;
    if uncited.len() > 0 {
        push_str(&mut note, ", ");
        push_decimal(&mut note, uncited.len());
        push_str(&mut note, " that no row cites:");
        let ghost head = note@;
        let mut k: usize = 0;
        while k < uncited.len()
            invariant
                0 <= k <= uncited@.len(),
                note@ == head + uncited_lines(views(uncited@).take(k as int)),
            decreases uncited@.len() - k,
        {
            push_str(&mut note, "\n  ");
            push_all(&mut note, uncited[k].as_slice());
            assert(views(uncited@).take(k + 1).drop_last() =~= views(uncited@).take(k as int));
            k = k + 1;
        }
        assert(views(uncited@).take(uncited@.len() as int) =~= views(uncited@));
    }
    let ghost b = note@;
    if without > 0 {
        push_str(&mut note, "\n");
        push_decimal(&mut note, without);
        push_str(&mut note, " row(s) carry no locator this could read");
    }
    let ghost c = note@;
    if unread > 0 {
        push_str(&mut note, "\n");
        push_decimal(&mut note, unread);
        push_str(&mut note, " record(s) could not be read");
    }
    note
}

/// Refuses a row whose locator is not in the vocabulary, and names every
/// source no row cites.
///
/// A record this cannot read, and a row carrying no locator where this can
/// find one, are both counted in the note rather than refused: which fields
/// a record owes is the schema's question.
pub fn every_locator_is_in_the_vocabulary(listing: &Result<Vec<TrackedFile>, Vec<u8>>) -> (r:
    Judged)
    requires
        files_fit(listing_of(*listing)),
        listing_of(*listing) matches Ok(fs) ==> fs.len() <= usize::MAX / 2,
    ensures
        r@ == provenance_verdict(listing_of(*listing)),
{
    let files = match listing {
        Err(why) => {
            return Judged::CouldNotJudge(copy_all(why.as_slice()));
        },
        Ok(files) => files,
    };
    let (wrong, rows, without, unread, cited) = walk_rows(files);
    if wrong.len() > 0 {
        return Judged::Refused(refusal(&wrong));
    }
    let (sources, more_unread, uncited) = walk_sources(files, &cited);
    let note = note_of_provenance(rows, without, unread + more_unread, sources, &uncited);
    let ghost t = tally_rows(files_of(files@));
    let ghost st = tally_sources(files_of(files@), t.cited);
    assert(note@ == provenance_note(t, st));
    Judged::Nothing(Some(note))
}


/// The source a link of a chain names, where it names one as text.
pub open spec fn source_of(link: Value) -> Option<Seq<u8>> {
    text_in(member_of(link, lit("source")))
}

/// A chain cites the source of every one of its links, in the order the
/// links stand, and nothing else: the sources it cites are its links mapped
/// to the source each names, the links naming none left out.
pub proof fn lemma_a_chain_cites_every_link(chain: Seq<Value>)
    ensures
        cited_by(chain) == chain.filter_map(|link: Value| source_of(link)),
        forall|i: int|
            0 <= i < chain.len() && #[trigger] source_of(chain[i]) is Some ==> cited_by(
                chain,
            ).contains(source_of(chain[i])->0),
    decreases chain.len(),
{
    if chain.len() > 0 {
        let init = chain.drop_last();
        lemma_a_chain_cites_every_link(init);
        let f = |link: Value| source_of(link);
        assert(cited_by(chain) =~= chain.filter_map(f));
        assert forall|i: int|
            0 <= i < chain.len() && #[trigger] source_of(chain[i]) is Some implies cited_by(
                chain,
            ).contains(source_of(chain[i])->0) by {
            if i < chain.len() - 1 {
                assert(init[i] == chain[i]);
                let s = source_of(chain[i])->0;
                let j = choose|j: int| 0 <= j < cited_by(init).len() && cited_by(init)[j] == s;
                assert(cited_by(chain)[j] == s);
            } else {
                assert(cited_by(chain).last() == source_of(chain[i])->0);
            }
        }
    }
}
} // verus!
