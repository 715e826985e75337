//! The line-endings part: a tracked text file whose working copy carries a
//! carriage return is refused.
//!
//! The stored format requires line feed endings, and a row points at its
//! tabulated block by a digest of that block's bytes, so a carriage return is
//! not a cosmetic difference: a digest computed over a working copy that
//! carries one does not match a digest computed anywhere else.
//!
//! Refusal surface. This file decides whether a tracked file is refused for
//! its line endings.

use vstd::prelude::*;
use crate::text::{
    copy_all, decimal, each_line, has_byte, has_byte_exec, lit, push_decimal, push_lines_after,
    push_str,
};
use crate::tree::{FileView, Judged, TrackedFile, Verdict, files_of, listing_of};

verus! {

/// Whether a file is taken as binary: a zero byte among its first 8000.
pub open spec fn looks_binary(bytes: Seq<u8>) -> bool {
    exists|i: int| 0 <= i < bytes.len() && i < 8000 && bytes[i] == 0
}

/// Whether the check treats a file as binary and does not judge it.
///
/// A zero byte near the start is git's own test, and using the same one
/// keeps this check's subject the same as the subject `.gitattributes`
/// reaches.
pub fn is_binary(bytes: &[u8]) -> (r: bool)
    ensures
        r == looks_binary(bytes@),
{
    let mut i: usize = 0;
    while i < bytes.len() && i < 8000
        invariant
            0 <= i <= bytes@.len(),
            i <= 8000,
            forall|j: int| 0 <= j < i ==> bytes@[j] != 0,
        decreases bytes@.len() - i,
    {
        if bytes[i] == 0 {
            return true;
        }
        i = i + 1;
    }
    false
}

/// Whether a file carries a carriage return anywhere in it.
pub fn carries_a_carriage_return(bytes: &[u8]) -> (r: bool)
    ensures
        r == has_byte(bytes@, 13),
{
    has_byte_exec(bytes, 13)
}

/// What the walk over a tree found: the text files carrying a carriage
/// return, and how many were read, skipped as binary and not there.
pub struct EndingTally {
    pub carrying: Seq<Seq<u8>>,
    pub read: nat,
    pub binary: nat,
    pub unread: nat,
}

/// The walk over the first files of a tree.
pub open spec fn tally_endings(fs: Seq<FileView>) -> EndingTally
    decreases fs.len(),
{
    if fs.len() == 0 {
        EndingTally { carrying: seq![], read: 0, binary: 0, unread: 0 }
    } else {
        let t = tally_endings(fs.drop_last());
        let f = fs.last();
        match f.bytes {
            Err(_) => EndingTally { unread: t.unread + 1, ..t },
            Ok(b) => if looks_binary(b) {
                EndingTally { binary: t.binary + 1, ..t }
            } else if has_byte(b, 13) {
                EndingTally { read: t.read + 1, carrying: t.carrying.push(f.name), ..t }
            } else {
                EndingTally { read: t.read + 1, ..t }
            },
        }
    }
}

/// What the refusal says after the files it names.
pub const ENDINGS_REPAIR: &'static str = "\nWhere the tree holds line feeds and the working copy does not, the checkout\npredates the declaration in .gitattributes and git writes the file again if\nit is removed and checked out. Where the tree holds the carriage return, the\nrepair is a commit. `git ls-files --eol <path>` says which of the two it is.\n";

/// Each name, indented, a line at a time.
pub open spec fn named_lines(names: Seq<Seq<u8>>) -> Seq<u8> {
    each_line(Seq::new(names.len(), |i: int| lit("  ") + names[i]))
}

/// What the check finds in a tree.
pub open spec fn endings_verdict(listing: Result<Seq<FileView>, Seq<u8>>) -> Verdict {
    match listing {
        Err(why) => Verdict::CouldNotJudge(why),
        Ok(fs) => {
            let t = tally_endings(fs);
            if t.carrying.len() > 0 {
                Verdict::Refused(
                    decimal(t.carrying.len()) + lit(
                        " tracked text file(s) carry a carriage return, and a digest over these bytes is wrong for every other reader:\n\n",
                    ) + named_lines(t.carrying) + lit(ENDINGS_REPAIR),
                )
            } else {
                Verdict::Nothing(
                    Some(
                        decimal(t.read) + lit(" text file(s) read") + (if t.binary > 0 {
                            lit(", ") + decimal(t.binary) + lit(" skipped as binary and not judged")
                        } else {
                            seq![]
                        }) + (if t.unread > 0 {
                            lit(", ") + decimal(t.unread) + lit(
                                " tracked but not in the working copy",
                            )
                        } else {
                            seq![]
                        }),
                    ),
                )
            }
        },
    }
}

/// Refuses a tracked text file whose working copy carries a carriage return.
///
/// It reads the working copy rather than the blob, so it goes red both when
/// a carriage return is in the tree and when a clone's checkout put one in a
/// file the declaration failed to reach. A file that could not be read is
/// counted rather than passed over, because a file nothing read is not a
/// file nothing refused.
pub fn no_carriage_return(listing: &Result<Vec<TrackedFile>, Vec<u8>>) -> (r: Judged)
    ensures
        r@ == endings_verdict(listing_of(*listing)),
{
    let files = match listing {
        Err(why) => {
            return Judged::CouldNotJudge(copy_all(why.as_slice()));
        },
        Ok(files) => files,
    };
    let ghost fs = files_of(files@);
    let mut carrying: Vec<Vec<u8>> = Vec::new();
    let mut read: usize = 0;
    let mut binary: usize = 0;
    let mut unread: usize = 0;
    let mut i: usize = 0;
    while i < files.len()
        invariant
            0 <= i <= files@.len(),
            fs == files_of(files@),
            crate::text::views(carrying@) == tally_endings(fs.take(i as int)).carrying,
            read == tally_endings(fs.take(i as int)).read,
            binary == tally_endings(fs.take(i as int)).binary,
            unread == tally_endings(fs.take(i as int)).unread,
            read + binary + unread <= i,
        decreases files@.len() - i,
    {
        let f = &files[i];
        assert(fs.take(i + 1).drop_last() =~= fs.take(i as int));
        assert(fs.take(i + 1).last() == fs[i as int]);
        let ghost before = crate::text::views(carrying@);
        match &f.bytes {
            Err(_) => {
                unread = unread + 1;
            },
            Ok(bytes) => {
                if is_binary(bytes.as_slice()) {
                    binary = binary + 1;
                } else {
                    read = read + 1;
                    if carries_a_carriage_return(bytes.as_slice()) {
                        carrying.push(copy_all(f.name.as_slice()));
                        assert(crate::text::views(carrying@) =~= before.push(f.name@));
                    }
                }
            },
        }
        i = i + 1;
    }
    assert(fs.take(files@.len() as int) =~= fs);
    let ghost t = tally_endings(fs);
    if carrying.len() > 0 {
        let mut why: Vec<u8> = Vec::new();
        push_decimal(&mut why, carrying.len());
        push_str(
            &mut why,
            " tracked text file(s) carry a carriage return, and a digest over these bytes is wrong for every other reader:\n\n",
        );
        push_lines_after(&mut why, "  ", &carrying);
        push_str(&mut why, ENDINGS_REPAIR);
        assert(Seq::new(carrying@.len(), |k: int| lit("  ") + carrying@[k]@) =~= Seq::new(
            t.carrying.len(),
            |k: int| lit("  ") + t.carrying[k],
        ));
        return Judged::Refused(why);
    }
    let mut note: Vec<u8> = Vec::new();
    push_decimal(&mut note, read);
    push_str(&mut note, " text file(s) read");
    if binary > 0 {
        push_str(&mut note, ", ");
        push_decimal(&mut note, binary);
        push_str(&mut note, " skipped as binary and not judged");
    }
    if unread > 0 {
        push_str(&mut note, ", ");
        push_decimal(&mut note, unread);
        push_str(&mut note, " tracked but not in the working copy");
    }
    assert(note@ =~= decimal(t.read) + lit(" text file(s) read") + (if t.binary > 0 {
        lit(", ") + decimal(t.binary) + lit(" skipped as binary and not judged")
    } else {
        seq![]
    }) + (if t.unread > 0 {
        lit(", ") + decimal(t.unread) + lit(" tracked but not in the working copy")
    } else {
        seq![]
    }));
    Judged::Nothing(Some(note))
}

} // verus!
