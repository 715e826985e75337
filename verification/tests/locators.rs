use stoffbuch_gate::neighbours::added;
use stoffbuch_gate::provenance::{every_locator_is_in_the_vocabulary, in_the_vocabulary, shapes};
use stoffbuch_gate::tree::{Judged, TrackedFile};

fn text(bytes: Vec<u8>) -> String {
    String::from_utf8(bytes).expect("what a check writes is UTF-8")
}

fn tree(files: &[(&str, Option<&[u8]>)]) -> Result<Vec<TrackedFile>, Vec<u8>> {
    Ok(files
        .iter()
        .map(|(name, bytes)| TrackedFile {
            name: name.as_bytes().to_vec(),
            bytes: match bytes {
                Some(b) => Ok(b.to_vec()),
                None => Err(b"No such file or directory (os error 2)".to_vec()),
            },
        })
        .collect())
}

fn note(judged: Judged) -> String {
    match judged {
        Judged::Nothing(Some(note)) => text(note),
        other => panic!("expected a clean verdict carrying a note, and got {other:?}"),
    }
}

fn refusal(judged: Judged) -> String {
    match judged {
        Judged::Refused(why) => text(why),
        other => panic!("expected a refusal, and got {other:?}"),
    }
}

/// A row carrying one locator, in the canonical form and nothing more than
/// this part reads.
fn a_row(locator: &str, source: &str) -> Vec<u8> {
    format!(
        "{{\n  \"provenance\": {{\n    \"chain\": [\n      {{\n        \"source\": \
         \"{source}\"\n      }}\n    ],\n    \"locator\": \"{locator}\"\n  }}\n}}\n"
    )
    .into_bytes()
}

/// A source carrying one identifier.
fn a_source(id: &str) -> Vec<u8> {
    format!("{{\n  \"id\": \"{id}\"\n}}\n").into_bytes()
}

#[test]
fn every_shape_in_the_vocabulary_is_one_the_reader_takes() {
    for shape in shapes() {
        assert!(in_the_vocabulary(shape.says), "{}", shape.says);
    }
}

#[test]
fn a_locator_in_the_vocabulary_is_not_refused() {
    let row = a_row("page 1197", "sb-src-A");
    let listing = tree(&[("register/rows/sb-A/sb-A@1.json", Some(&row))]);
    assert_eq!(
        note(every_locator_is_in_the_vocabulary(&listing)),
        "1 row(s) read under register/rows/, 0 source(s) under register/sources/"
    );
}

#[test]
fn the_abbreviation_a_citation_is_written_with_is_refused() {
    let row = a_row("p. 1197", "sb-src-A");
    let listing = tree(&[("register/rows/sb-A/sb-A@1.json", Some(&row))]);
    let why = refusal(every_locator_is_in_the_vocabulary(&listing));
    assert!(why.contains("1 row(s) carry a locator that is not in the vocabulary"), "{why}");
    assert!(why.contains("  register/rows/sb-A/sb-A@1.json"), "{why}");
    assert!(why.contains("      p. 1197"), "{why}");
    assert!(why.contains("page 1197, equation 12"), "{why}");
}

#[test]
fn a_part_separated_by_a_comma_and_no_space_is_refused() {
    assert!(in_the_vocabulary("table IV, row 7"));
    assert!(!in_the_vocabulary("table IV,row 7"));
}

#[test]
fn a_word_the_vocabulary_does_not_carry_is_refused_however_well_it_reads() {
    assert!(!in_the_vocabulary("section 3"));
    assert!(!in_the_vocabulary("Page 1197"));
    assert!(!in_the_vocabulary("figure 2, panel b"));
}

#[test]
fn a_part_with_nothing_after_its_word_is_refused() {
    assert!(!in_the_vocabulary("page"));
    assert!(!in_the_vocabulary("page "));
    assert!(!in_the_vocabulary("table IV, row"));
}

#[test]
fn a_second_space_inside_a_part_is_refused_and_one_is_not() {
    assert!(in_the_vocabulary("figure 2, curve as grown"));
    assert!(!in_the_vocabulary("page  1197"));
}

#[test]
fn a_source_a_row_cites_is_not_named_and_one_nothing_cites_is() {
    let row = a_row("page 1197", "sb-src-CITED");
    let cited = a_source("sb-src-CITED");
    let alone = a_source("sb-src-ALONE");
    let listing = tree(&[
        ("register/rows/sb-A/sb-A@1.json", Some(&row)),
        ("register/sources/sb-src-CITED/sb-src-CITED@1.json", Some(&cited)),
        ("register/sources/sb-src-ALONE/sb-src-ALONE@1.json", Some(&alone)),
    ]);
    let note = note(every_locator_is_in_the_vocabulary(&listing));
    assert!(note.contains("2 source(s) under register/sources/"), "{note}");
    assert!(note.contains("1 that no row cites:"), "{note}");
    assert!(note.contains("  register/sources/sb-src-ALONE/sb-src-ALONE@1.json"), "{note}");
    assert!(!note.contains("sb-src-CITED/"), "{note}");
}

#[test]
fn a_row_this_cannot_read_a_locator_out_of_is_counted_rather_than_refused() {
    let listing = tree(&[
        ("register/rows/sb-A/sb-A@1.json", Some(b"{\n  \"kind\": \"x\"\n}\n")),
        ("register/rows/sb-B/sb-B@1.json", Some(b"{\n")),
    ]);
    let note = note(every_locator_is_in_the_vocabulary(&listing));
    assert!(note.contains("1 row(s) read under register/rows/"), "{note}");
    assert!(note.contains("1 row(s) carry no locator this could read"), "{note}");
    assert!(note.contains("1 record(s) could not be read"), "{note}");
}

#[test]
fn a_tracked_row_absent_from_the_working_copy_is_counted_rather_than_passed_over() {
    let row = a_row("page 1197", "sb-src-A");
    let listing = tree(&[
        ("register/rows/sb-A/sb-A@1.json", Some(&row)),
        ("register/rows/sb-B/sb-B@1.json", None),
    ]);
    assert_eq!(
        note(every_locator_is_in_the_vocabulary(&listing)),
        "1 row(s) read under register/rows/, 0 source(s) under register/sources/\n\
         1 record(s) could not be read"
    );
}

#[test]
fn a_tracked_source_absent_from_the_working_copy_is_counted_rather_than_passed_over() {
    let row = a_row("page 1197", "sb-src-CITED");
    let cited = a_source("sb-src-CITED");
    let listing = tree(&[
        ("register/rows/sb-A/sb-A@1.json", Some(&row)),
        ("register/sources/sb-src-CITED/sb-src-CITED@1.json", Some(&cited)),
        ("register/sources/sb-src-GONE/sb-src-GONE@1.json", None),
    ]);
    assert_eq!(
        note(every_locator_is_in_the_vocabulary(&listing)),
        "1 row(s) read under register/rows/, 1 source(s) under register/sources/\n\
         1 record(s) could not be read"
    );
}

#[test]
fn a_source_this_cannot_read_is_counted_rather_than_named_as_uncited() {
    let row = a_row("page 1197", "sb-src-A");
    let listing = tree(&[
        ("register/rows/sb-A/sb-A@1.json", Some(&row)),
        ("register/sources/sb-src-A/sb-src-A@1.json", Some(b"{\n")),
    ]);
    assert_eq!(
        note(every_locator_is_in_the_vocabulary(&listing)),
        "1 row(s) read under register/rows/, 0 source(s) under register/sources/\n\
         1 record(s) could not be read"
    );
}

#[test]
fn the_refusal_lists_every_shape_a_locator_may_take() {
    let row = a_row("Fig. 2", "sb-src-A");
    let listing = tree(&[("register/rows/a.json", Some(&row))]);
    let why = refusal(every_locator_is_in_the_vocabulary(&listing));
    assert!(
        why.contains(
            "one of these shapes:\n\n  page 1197\n  equation 12\n  page 1197, equation 12\n  \
             table IV, row 7\n  table IV, column 3\n  figure 2, curve as-grown\n\nThe words"
        ),
        "{why}"
    );
}

// How far apart two fixtures are.

#[test]
fn a_fixture_differing_in_two_lines_is_not_a_near_neighbour() {
    let accepted = ["a", "b", "c"];
    let one_line = ["a", "x", "c"];
    let two_lines = ["a", "x", "y"];
    assert_eq!(added(&accepted, &one_line).len(), 1);
    assert_eq!(added(&one_line, &accepted).len(), 1);
    assert_eq!(added(&accepted, &two_lines).len(), 2);
}

#[test]
fn a_repeated_line_is_counted_as_often_as_it_is_written() {
    assert_eq!(added(&["a", "b"], &["a", "a", "b"]), vec!["a"]);
    assert_eq!(added(&["a", "a", "b"], &["b", "a"]), Vec::<&str>::new());
    assert_eq!(added(&[], &["x", "y"]), vec!["x", "y"]);
}
