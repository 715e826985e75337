//! What a check is given: the files the tree tracks, each with its bytes as
//! the working copy holds them, and what a check says back.

use vstd::prelude::*;
use vstd::utf8::valid_utf8;

verus! {

/// One tracked file, with its bytes where the working copy holds it.
pub struct TrackedFile {
    /// The path, relative to the root of the tree.
    pub name: Vec<u8>,
    /// The bytes, or what reading them said where the file could not be read.
    pub bytes: Result<Vec<u8>, Vec<u8>>,
}

/// A tracked file as the checks state it.
pub struct FileView {
    pub name: Seq<u8>,
    pub bytes: Result<Seq<u8>, Seq<u8>>,
}

impl View for TrackedFile {
    type V = FileView;

    open spec fn view(&self) -> FileView {
        FileView {
            name: self.name@,
            bytes: match self.bytes {
                Ok(b) => Ok(b@),
                Err(e) => Err(e@),
            },
        }
    }
}

/// The files of a tree, as the checks state them.
pub open spec fn files_of(v: Seq<TrackedFile>) -> Seq<FileView> {
    Seq::new(v.len(), |i: int| v[i]@)
}

/// The text of a file that reads as text: its bytes, where the working copy
/// holds it and they are UTF-8.
pub open spec fn text_of(f: FileView) -> Option<Seq<u8>> {
    match f.bytes {
        Ok(b) => if valid_utf8(b) {
            Some(b)
        } else {
            None
        },
        Err(_) => None,
    }
}

/// What git said the tree tracks, each file with its bytes, or what asking
/// it said where the list could not be had.
pub open spec fn listing_of(l: Result<Vec<TrackedFile>, Vec<u8>>) -> Result<Seq<FileView>, Seq<u8>> {
    match l {
        Ok(v) => Ok(files_of(v@)),
        Err(e) => Err(e@),
    }
}

/// Whether every file of a tree fits a line count.
pub open spec fn files_fit(listing: Result<Seq<FileView>, Seq<u8>>) -> bool {
    listing matches Ok(fs) ==> forall|i: int|
        0 <= i < fs.len() ==> ((#[trigger] fs[i]).bytes matches Ok(b) ==> b.len() < usize::MAX)
}

/// What a check this repository owns found.
#[derive(Debug, Clone, PartialEq, Eq)]
pub enum Judged {
    /// Nothing refused. The note, where there is one, says what the check did
    /// not reach.
    Nothing(Option<Vec<u8>>),
    /// Refused. The text names every subject and why.
    Refused(Vec<u8>),
    /// The check could not judge its subject, so nothing about it is known.
    CouldNotJudge(Vec<u8>),
}

/// What a check found, as the checks state it.
pub enum Verdict {
    Nothing(Option<Seq<u8>>),
    Refused(Seq<u8>),
    CouldNotJudge(Seq<u8>),
}

impl View for Judged {
    type V = Verdict;

    open spec fn view(&self) -> Verdict {
        match self {
            Self::Nothing(Some(n)) => Verdict::Nothing(Some(n@)),
            Self::Nothing(None) => Verdict::Nothing(None),
            Self::Refused(w) => Verdict::Refused(w@),
            Self::CouldNotJudge(w) => Verdict::CouldNotJudge(w@),
        }
    }
}

} // verus!
