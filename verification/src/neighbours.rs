//! How far apart two fixtures are, a line at a time.
//!
//! A fixture that could not plausibly have been written by mistake proves
//! less than one that nearly is correct, so a refused fixture is held to
//! differ from the accepted one in a single line changed, added or taken
//! away. The comparison counts repeats: a line that occurs twice in one and
//! once in the other is one line apart.

use vstd::prelude::*;
use vstd::string::StringSliceAdditionalSpecFns;
use crate::text::same;

verus! {

/// Where the first of `left` that is `line` is.
pub open spec fn first_equal<'a, 'b>(left: Seq<&'b str>, line: &'a str, k: int) -> Option<int>
    decreases left.len() - k,
{
    if !(0 <= k < left.len()) {
        None
    } else if left[k].spec_bytes() == line.spec_bytes() {
        Some(k)
    } else {
        first_equal(left, line, k + 1)
    }
}

proof fn lemma_first_equal<'a, 'b>(left: Seq<&'b str>, line: &'a str, k: int)
    ensures
        first_equal(left, line, k) matches Some(j) ==> k <= j < left.len(),
    decreases left.len() - k,
{
    if 0 <= k < left.len() && left[k].spec_bytes() != line.spec_bytes() {
        lemma_first_equal(left, line, k + 1);
    }
}

/// The lines of `later` that are not in `left`, counting repeats: each line
/// of `later` in turn takes away the first equal line left, and is added
/// where none is.
pub open spec fn added_from<'a, 'b>(left: Seq<&'b str>, later: Seq<&'a str>) -> Seq<&'a str>
    decreases later.len(),
{
    if later.len() == 0 {
        seq![]
    } else {
        match first_equal(left, later[0], 0) {
            Some(j) => added_from(left.remove(j), later.drop_first()),
            None => seq![later[0]] + added_from(left, later.drop_first()),
        }
    }
}

/// The lines of `later` that are not in `earlier`, counting repeats.
pub fn added<'a, 'b>(earlier: &[&'b str], later: &[&'a str]) -> (r: Vec<&'a str>)
    ensures
        r@ == added_from(earlier@, later@),
{
    let mut left: Vec<&'b str> = Vec::new();
    let mut i: usize = 0;
    while i < earlier.len()
        invariant
            0 <= i <= earlier@.len(),
            left@ == earlier@.take(i as int),
        decreases earlier@.len() - i,
    {
        left.push(earlier[i]);
        i = i + 1;
        assert(left@ =~= earlier@.take(i as int));
    }
    assert(earlier@.take(earlier@.len() as int) =~= earlier@);
    let mut extra: Vec<&'a str> = Vec::new();
    let mut i: usize = 0;
    assert(later@.skip(0) =~= later@);
    while i < later.len()
        invariant
            0 <= i <= later@.len(),
            extra@ + added_from(left@, later@.skip(i as int)) == added_from(earlier@, later@),
        decreases later@.len() - i,
    {
        let line = later[i];
        let ghost rest = later@.skip(i as int);
        assert(rest[0] == line);
        assert(rest.drop_first() =~= later@.skip(i + 1));
        let mut at: usize = 0;
        proof {
            lemma_first_equal(left@, line, 0);
        }
        while at < left.len() && !same(left[at].as_bytes(), line.as_bytes())
            invariant
                0 <= at <= left@.len(),
                first_equal(left@, line, 0) == first_equal(left@, line, at as int),
            decreases left@.len() - at,
        {
            at = at + 1;
        }
        if at < left.len() {
            assert(first_equal(left@, line, 0) == Some(at as int));
            let ghost before = left@;
            left.remove(at);
            assert(left@ == before.remove(at as int));
        } else {
            let ghost before = extra@;
            extra.push(line);
            assert(extra@ + added_from(left@, later@.skip(i + 1)) =~= before + added_from(
                left@,
                rest,
            ));
        }
        i = i + 1;
    }
    assert(later@.skip(later@.len() as int) =~= Seq::<&'a str>::empty());
    assert(extra@ =~= added_from(earlier@, later@));
    extra
}

} // verus!
