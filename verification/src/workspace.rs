//! Which manifest is the workspace root's.
//!
//! The root is the nearest directory at or above where the command runs
//! whose `Cargo.toml` declares a workspace. Reading for the table rather than
//! parsing the manifest keeps the run free of a parser it would otherwise
//! carry for one line, and the cost is named: a manifest that writes the same
//! table in another legal spelling is not recognised.

use vstd::prelude::*;
use vstd::string::StringSliceAdditionalSpecFns;
use crate::text::{line_at, lines, lit, same, trim_end, trim_end_at, copy_range};

verus! {

/// Whether one of `ls`, trailing whitespace aside, is the workspace table's
/// header.
pub open spec fn has_workspace_header(ls: Seq<Seq<u8>>) -> bool {
    exists|i: int| 0 <= i < ls.len() && trim_end(#[trigger] ls[i]) == lit("[workspace]")
}

/// Whether the text of a manifest declares a workspace.
pub fn declares_a_workspace(manifest: &str) -> (r: bool)
    ensures
        r == has_workspace_header(lines(manifest.spec_bytes())),
{
    let text = manifest.as_bytes();
    let n = text.len();
    let mut at: usize = 0;
    let ghost mut done: Seq<Seq<u8>> = seq![];
    assert(text@.skip(0) =~= text@);
    while at < n
        invariant
            n == text@.len(),
            text@ == manifest.spec_bytes(),
            at <= n,
            lines(text@) == done + lines(text@.skip(at as int)),
            !has_workspace_header(done),
        decreases n - at,
    {
        let span = line_at(text, at);
        let ghost one = text@.subrange(at as int, span.end as int);
        let b = trim_end_at(text, span.start, span.end);
        let trimmed = copy_range(text, span.start, b);
        proof {
            assert(lines(text@.skip(at as int))[0] == one);
            assert(lines(text@.skip(at as int)).drop_first() =~= lines(
                text@.skip(span.next as int),
            ));
            assert(lines(text@) =~= done.push(one) + lines(text@.skip(span.next as int)));
        }
        if same(trimmed.as_slice(), "[workspace]".as_bytes()) {
            assert(lines(text@)[done.len() as int] == one);
            assert(trimmed@ == trim_end(one));
            assert(trim_end(lines(text@)[done.len() as int]) == lit("[workspace]"));
            return true;
        }
        proof {
            assert forall|i: int| 0 <= i < done.push(one).len() implies trim_end(
                #[trigger] done.push(one)[i],
            ) != lit("[workspace]") by {
                if i < done.len() {
                    assert(done.push(one)[i] == done[i]);
                }
            }
            done = done.push(one);
        }
        at = span.next;
    }
    assert(text@.skip(at as int) =~= Seq::<u8>::empty());
    assert(lines(text@.skip(at as int)) =~= Seq::<Seq<u8>>::empty());
    assert(lines(text@) =~= done);
    false
}

} // verus!
