//! The surface part: a file that decides a refusal without saying so, and a
//! file that says so and decides none, are refused.
//!
//! The code that decides whether a subject is refused is what this project
//! holds to a higher standard than the rest, and naming that code is what a
//! coverage bar and a mutation run are pointed at. This names a file rather
//! than a function, and it reads text, so a file that merely matches on a
//! refusal is asked for the line too.
//!
//! Refusal surface. This file decides whether a Rust file is refused for what
//! it says about the surface.

use vstd::prelude::*;
use vstd::string::StringSliceAdditionalSpecFns;
use crate::headless::{is_rust_bytes, rust_path};
use crate::text::{
    contains, contains_exec, copy_all, copy_range, decimal, each_line, line_at, lines, lit,
    push_all, push_decimal, push_lines, push_str, starts_with, starts_with_exec, trim_start,
    trim_start_range, views,
};
use crate::tree::{FileView, Judged, TrackedFile, Verdict, files_of, listing_of, text_of};
use crate::unicode::is_utf8;

verus! {

/// The line in a file's own module documentation that puts it in the
/// refusal surface.
pub const SURFACE: &'static str = "Refusal surface.";

/// The spelling a refusal in the tree is written with.
pub const REFUSAL: &'static str = "Judged::Refused";

/// Whether, among `ls`, the module documentation names the file part of the
/// surface and the code decides a refusal. Only lines above the first that
/// opens the test module are read; a comment is not a decision.
pub open spec fn names_from(ls: Seq<Seq<u8>>) -> (bool, bool)
    decreases ls.len(),
{
    if ls.len() == 0 {
        (false, false)
    } else {
        let line = trim_start(ls[0]);
        if starts_with(line, lit("#[cfg(test)]")) {
            (false, false)
        } else {
            let rest = names_from(ls.drop_first());
            if starts_with(line, lit("//!")) {
                (contains(line, lit(SURFACE)) || rest.0, rest.1)
            } else if !starts_with(line, lit("//")) {
                (rest.0, contains(line, lit(REFUSAL)) || rest.1)
            } else {
                rest
            }
        }
    }
}

/// Whether a file's module documentation names it as part of the refusal
/// surface, and whether its own code decides a refusal, read from its bytes.
pub fn names_itself_bytes(text: &[u8]) -> (r: (bool, bool))
    ensures
        r == names_from(lines(text@)),
{
    let n = text.len();
    let mut at: usize = 0;
    let mut named = false;
    let mut decides = false;
    let ghost mut done: Seq<Seq<u8>> = seq![];
    assert(text@.skip(0) =~= text@);
    while at < n
        invariant
            n == text@.len(),
            at <= n,
            ({
                let rest = names_from(lines(text@.skip(at as int)));
                names_from(lines(text@)) == (named || rest.0, decides || rest.1)
            }),
        decreases n - at,
    {
        let span = line_at(text, at);
        let ghost ls = lines(text@.skip(at as int));
        assert(ls[0] == text@.subrange(at as int, span.end as int));
        assert(ls.drop_first() =~= lines(text@.skip(span.next as int)));
        let (a, _) = trim_start_range(text, span.start, span.end);
        let line = copy_range(text, a, span.end);
        if starts_with_exec(line.as_slice(), "#[cfg(test)]".as_bytes()) {
            return (named, decides);
        }
        if starts_with_exec(line.as_slice(), "//!".as_bytes()) {
            named = named || contains_exec(line.as_slice(), SURFACE.as_bytes());
        } else if !starts_with_exec(line.as_slice(), "//".as_bytes()) {
            decides = decides || contains_exec(line.as_slice(), REFUSAL.as_bytes());
        }
        at = span.next;
    }
    assert(text@.skip(at as int) =~= Seq::<u8>::empty());
    assert(lines(text@.skip(at as int)) =~= Seq::<Seq<u8>>::empty());
    (named, decides)
}

/// Whether a file's module documentation names it as part of the refusal
/// surface, and whether its own code decides a refusal.
///
/// What is read is everything above the first `#[cfg(test)]`. A fixture is a
/// refusal written down to be read rather than one a run acts on. A comment
/// mentioning the spelling is not a decision, so only lines that are not
/// comments are read for it.
pub fn names_itself(text: &str) -> (r: (bool, bool))
    ensures
        r == names_from(lines(text.spec_bytes())),
{
    names_itself_bytes(text.as_bytes())
}

// ---------------------------------------------------------------------------
/// What one walk over the tracked Rust files found about the surface.
pub struct Survey {
    /// The files that name themselves part of it and decide a refusal.
    pub surface: Vec<Vec<u8>>,
    /// The files whose documentation and code say different things, each
    /// with which of the two directions it went.
    pub disagreeing: Vec<Vec<u8>>,
    /// How many files were read.
    pub read: usize,
}

/// What a walk found, as the checks state it.
pub struct SurveyView {
    pub surface: Seq<Seq<u8>>,
    pub disagreeing: Seq<Seq<u8>>,
    pub read: nat,
}

impl View for Survey {
    type V = SurveyView;

    open spec fn view(&self) -> SurveyView {
        SurveyView {
            surface: views(self.surface@),
            disagreeing: views(self.disagreeing@),
            read: self.read as nat,
        }
    }
}

/// The walk over the first files of a tree: each Rust file whose working
/// copy reads as text is read and placed against the marker.
pub open spec fn survey(fs: Seq<FileView>) -> SurveyView
    decreases fs.len(),
{
    if fs.len() == 0 {
        SurveyView { surface: seq![], disagreeing: seq![], read: 0 }
    } else {
        let t = survey(fs.drop_last());
        let f = fs.last();
        if !rust_path(f.name) {
            t
        } else {
            match text_of(f) {
                None => t,
                Some(b) => {
                    let t2 = SurveyView { read: t.read + 1, ..t };
                    let placed = names_from(lines(b));
                    if placed.0 && placed.1 {
                        SurveyView { surface: t2.surface.push(f.name), ..t2 }
                    } else if !placed.0 && placed.1 {
                        SurveyView {
                            disagreeing: t2.disagreeing.push(
                                lit("  ") + f.name + lit(
                                    "\n      decides a refusal and its module documentation does not say so",
                                ),
                            ),
                            ..t2
                        }
                    } else if placed.0 && !placed.1 {
                        SurveyView {
                            disagreeing: t2.disagreeing.push(
                                lit("  ") + f.name + lit(
                                    "\n      says it decides refusals and decides none",
                                ),
                            ),
                            ..t2
                        }
                    } else {
                        t2
                    }
                },
            }
        }
    }
}

/// Reads every tracked Rust file and places it against the surface marker.
///
/// The walk is shared by the check, which refuses a disagreement, and the
/// command that prints the surface, so there is one definition of what the
/// surface is.
pub fn survey_the_surface(files: &Vec<TrackedFile>) -> (r: Survey)
    ensures
        r@ == survey(files_of(files@)),
{
    let ghost fs = files_of(files@);
    let mut surface: Vec<Vec<u8>> = Vec::new();
    let mut disagreeing: Vec<Vec<u8>> = Vec::new();
    let mut read: usize = 0;
    let mut i: usize = 0;
    while i < files.len()
        invariant
            0 <= i <= files@.len(),
            fs == files_of(files@),
            views(surface@) == survey(fs.take(i as int)).surface,
            views(disagreeing@) == survey(fs.take(i as int)).disagreeing,
            read == survey(fs.take(i as int)).read,
            read <= i,
        decreases files@.len() - i,
    {
        let f = &files[i];
        assert(fs.take(i + 1).drop_last() =~= fs.take(i as int));
        assert(fs.take(i + 1).last() == fs[i as int]);
        if is_rust_bytes(f.name.as_slice()) {
            match &f.bytes {
                Err(_) => {},
                Ok(bytes) => {
                    if is_utf8(bytes.as_slice()) {
                        read = read + 1;
                        assert(fs[i as int].bytes == Ok::<Seq<u8>, Seq<u8>>(bytes@));
                        let (named, decides) = names_itself_bytes(bytes.as_slice());
                        if named && decides {
                            let ghost before = views(surface@);
                            surface.push(copy_all(f.name.as_slice()));
                            assert(views(surface@) =~= before.push(f.name@));
                        } else if !named && decides {
                            let mut one: Vec<u8> = Vec::new();
                            push_str(&mut one, "  ");
                            push_all(&mut one, f.name.as_slice());
                            push_str(
                                &mut one,
                                "\n      decides a refusal and its module documentation does not say so",
                            );
                            let ghost before = views(disagreeing@);
                            disagreeing.push(one);
                            assert(views(disagreeing@) =~= before.push(one@));
                        } else if named && !decides {
                            let mut one: Vec<u8> = Vec::new();
                            push_str(&mut one, "  ");
                            push_all(&mut one, f.name.as_slice());
                            push_str(&mut one, "\n      says it decides refusals and decides none");
                            let ghost before = views(disagreeing@);
                            disagreeing.push(one);
                            assert(views(disagreeing@) =~= before.push(one@));
                        }
                    }
                },
            }
        }
        i = i + 1;
    }
    assert(fs.take(files@.len() as int) =~= fs);
    Survey { surface, disagreeing, read }
}

/// Names separated by one space.
pub open spec fn spaced(names: Seq<Seq<u8>>) -> Seq<u8>
    decreases names.len(),
{
    if names.len() == 0 {
        seq![]
    } else if names.len() == 1 {
        names[0]
    } else {
        spaced(names.drop_last()) + lit(" ") + names.last()
    }
}

/// What the refusal says after the files it names.
pub const SURFACE_REPAIR: &'static str = "\nA file that decides a refusal says so in its own module documentation, in a\nline reading `Refusal surface.`. What that line means and what it cannot do are in\ndocs/decisions/static-analysis-and-the-refusal-surface.md. The scope a coverage\nbar and a mutation run are given is what this part prints, so a file missing\nfrom it is a file neither of them ever reaches.\n";

/// What the check finds in a tree.
pub open spec fn surface_verdict(listing: Result<Seq<FileView>, Seq<u8>>) -> Verdict {
    match listing {
        Err(why) => Verdict::CouldNotJudge(why),
        Ok(fs) => {
            let s = survey(fs);
            if s.disagreeing.len() > 0 {
                Verdict::Refused(
                    decimal(s.disagreeing.len()) + lit(
                        " file(s) disagree with what they say about the refusal surface:\n\n",
                    ) + each_line(s.disagreeing) + lit(SURFACE_REPAIR),
                )
            } else if s.surface.len() == 0 {
                Verdict::Nothing(
                    Some(
                        decimal(s.read) + lit(
                            " tracked Rust file(s) read, none in the refusal surface",
                        ),
                    ),
                )
            } else {
                Verdict::Nothing(
                    Some(
                        decimal(s.read) + lit(" tracked Rust file(s) read, ") + decimal(
                            s.surface.len(),
                        ) + lit(" in the refusal surface: ") + spaced(s.surface),
                    ),
                )
            }
        },
    }
}

/// Refuses a file that decides a refusal without saying so, and a file that
/// says so and decides none.
pub fn the_refusal_surface_is_named(listing: &Result<Vec<TrackedFile>, Vec<u8>>) -> (r: Judged)
    ensures
        r@ == surface_verdict(listing_of(*listing)),
{
    let files = match listing {
        Err(why) => {
            return Judged::CouldNotJudge(copy_all(why.as_slice()));
        },
        Ok(files) => files,
    };
    let s = survey_the_surface(files);
    if s.disagreeing.len() > 0 {
        let mut why: Vec<u8> = Vec::new();
        push_decimal(&mut why, s.disagreeing.len());
        push_str(&mut why, " file(s) disagree with what they say about the refusal surface:\n\n");
        push_lines(&mut why, &s.disagreeing);
        push_str(&mut why, SURFACE_REPAIR);
        return Judged::Refused(why);
    }
    let mut note: Vec<u8> = Vec::new();
    push_decimal(&mut note, s.read);
    if s.surface.len() == 0 {
        push_str(&mut note, " tracked Rust file(s) read, none in the refusal surface");
        return Judged::Nothing(Some(note));
    }
    push_str(&mut note, " tracked Rust file(s) read, ");
    push_decimal(&mut note, s.surface.len());
    push_str(&mut note, " in the refusal surface: ");
    let ghost head = note@;
    let mut k: usize = 0;
    while k < s.surface.len()
        invariant
            0 <= k <= s.surface@.len(),
            note@ == head + spaced(views(s.surface@).take(k as int)),
        decreases s.surface@.len() - k,
    {
        if k > 0 {
            push_str(&mut note, " ");
        }
        push_all(&mut note, s.surface[k].as_slice());
        proof {
            let v = views(s.surface@);
            assert(v.take(k + 1).drop_last() =~= v.take(k as int));
            if k == 0 {
                assert(v.take(1) =~= seq![v[0]]);
            }
        }
        k = k + 1;
    }
    assert(views(s.surface@).take(s.surface@.len() as int) =~= views(s.surface@));
    Judged::Nothing(Some(note))
}

/// The files the command prints as the surface are the files the check
/// placed in it: where the check refuses nothing and the surface is not
/// empty, its note ends with exactly those files, in the same order.
pub proof fn lemma_the_printed_surface_is_the_placed_surface(fs: Seq<FileView>)
    requires
        survey(fs).disagreeing.len() == 0,
        survey(fs).surface.len() > 0,
    ensures
        surface_verdict(Ok(fs)) == Verdict::Nothing(
            Some(
                decimal(survey(fs).read) + lit(" tracked Rust file(s) read, ") + decimal(
                    survey(fs).surface.len(),
                ) + lit(" in the refusal surface: ") + spaced(survey(fs).surface),
            ),
        ),
{
}

/// Every tracked file that names itself part of the refusal surface, or the
/// reason the tracked list could not be had.
///
/// This is what a coverage bar and a mutation run are pointed at, derived
/// from the same marker the surface part reads rather than from a list in a
/// configuration file.
pub fn refusal_surface(listing: &Result<Vec<TrackedFile>, Vec<u8>>) -> (r: Result<
    Vec<Vec<u8>>,
    Vec<u8>,
>)
    ensures
        match listing_of(*listing) {
            Err(why) => r matches Err(w) && w@ == why,
            Ok(fs) => r matches Ok(names) && views(names@) == survey(fs).surface,
        },
{
    match listing {
        Err(why) => Err(copy_all(why.as_slice())),
        Ok(files) => Ok(survey_the_surface(files).surface),
    }
}

} // verus!
