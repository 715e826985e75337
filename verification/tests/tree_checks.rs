use stoffbuch_gate::endings::{carries_a_carriage_return, is_binary, no_carriage_return};
use stoffbuch_gate::findings::{
    every_accepted_finding_is_recorded, is_searched_for_a_finding, record_named, suppressions,
};
use stoffbuch_gate::guards::{
    adrift_from, elsewhere_guards, every_guard_is_accounted_for, reorderings, reorders, Reordering,
};
use stoffbuch_gate::headless::{
    a_test_reaches_nothing_it_may_not, forbidden_surfaces, is_a_test_file, is_rust, reached,
};
use stoffbuch_gate::invariants::{
    breaks, is_a_record, no_invariant_is_broken, read_invariant, INVARIANTS,
};
use stoffbuch_gate::surface::{
    names_itself, refusal_surface, the_refusal_surface_is_named, SURFACE,
};
use stoffbuch_gate::tree::{Judged, TrackedFile};
use stoffbuch_gate::workspace::declares_a_workspace;

fn text(bytes: Vec<u8>) -> String {
    String::from_utf8(bytes).expect("what a check writes is UTF-8")
}

/// A tree as the checks are given it: each tracked file with the bytes its
/// working copy holds, or, where there is none, what reading it said.
fn tree(files: &[(&str, Option<&[u8]>)]) -> Result<Vec<TrackedFile>, Vec<u8>> {
    Ok(files
        .iter()
        .map(|(name, bytes)| TrackedFile {
            name: name.as_bytes().to_vec(),
            bytes: match bytes {
                Some(b) => Ok(b.to_vec()),
                None => Err(b"No such file or directory (os error 2)".to_vec()),
            },
        })
        .collect())
}

/// What asking git says outside a checkout.
fn not_a_checkout() -> Result<Vec<TrackedFile>, Vec<u8>> {
    Err(b"git ls-files -z said: fatal: not a git repository".to_vec())
}

fn note(judged: Judged) -> String {
    match judged {
        Judged::Nothing(Some(note)) => text(note),
        other => panic!("expected a clean verdict carrying a note, and got {other:?}"),
    }
}

fn refusal(judged: Judged) -> String {
    match judged {
        Judged::Refused(why) => text(why),
        other => panic!("expected a refusal, and got {other:?}"),
    }
}

// The line-endings check.

#[test]
fn a_tabulated_block_with_line_feed_endings_is_clean() {
    let block = b"T\tn\n300\t3.42\n400\t3.44\n";
    assert!(!carries_a_carriage_return(block));
}

#[test]
fn the_same_block_written_with_carriage_returns_is_refused() {
    let block = b"T\tn\r\n300\t3.42\r\n400\t3.44\r\n";
    assert!(carries_a_carriage_return(block));
}

#[test]
fn a_carriage_return_on_its_own_is_refused() {
    assert!(carries_a_carriage_return(b"300\t3.42\ris not 3.42"));
}

#[test]
fn a_carriage_return_at_the_very_end_is_refused() {
    assert!(carries_a_carriage_return(b"300\t3.42\n\r"));
}

#[test]
fn a_carriage_return_past_the_first_eight_thousand_bytes_is_refused() {
    let mut late = vec![b'x'; 9000];
    late.push(b'\r');
    assert!(carries_a_carriage_return(&late));
}

#[test]
fn a_file_with_a_zero_byte_is_binary_and_is_not_judged() {
    assert!(is_binary(b"\x89PNG\r\n\x1a\n\x00\x00\x00\rIHDR"));
    assert!(!is_binary(b"T\tn\n300\t3.42\n"));
}

#[test]
fn a_zero_byte_far_into_a_file_leaves_it_text() {
    let mut late = vec![b'x'; 9000];
    late.push(0);
    assert!(!is_binary(&late));
}

#[test]
fn a_clean_tree_is_reported_with_the_count_of_what_was_read_and_nothing_else() {
    let listing = tree(&[("a.md", Some(b"one\n")), ("b/c.md", Some(b"two\n"))]);
    assert_eq!(note(no_carriage_return(&listing)), "2 text file(s) read");
}

#[test]
fn a_file_with_a_zero_byte_is_counted_as_skipped_rather_than_read() {
    let listing = tree(&[("a.md", Some(b"one\n")), ("b.bin", Some(b"\x00\x01\x02"))]);
    assert_eq!(
        note(no_carriage_return(&listing)),
        "1 text file(s) read, 1 skipped as binary and not judged"
    );
}

#[test]
fn a_tracked_file_absent_from_the_working_copy_is_counted_rather_than_passed_over() {
    let listing = tree(&[("a.md", Some(b"one\n")), ("gone.md", None)]);
    assert_eq!(
        note(no_carriage_return(&listing)),
        "1 text file(s) read, 1 tracked but not in the working copy"
    );
}

#[test]
fn a_carriage_return_in_the_working_copy_is_refused_and_the_file_is_named() {
    let listing = tree(&[("a.md", Some(b"one\n")), ("b.md", Some(b"two\r\nthree\n"))]);
    let why = refusal(no_carriage_return(&listing));
    assert!(why.contains("1 tracked text file(s) carry a carriage return"), "{why}");
    assert!(why.contains("  b.md"), "{why}");
}

#[test]
fn a_directory_git_knows_nothing_about_is_not_reported_as_a_clean_tree() {
    let judged = no_carriage_return(&not_a_checkout());
    assert!(
        matches!(judged, Judged::CouldNotJudge(_)),
        "expected a run that could not judge, and got {judged:?}"
    );
}

// The guards check.

const A_CITATION: &str = "Müller and Ångström, Zeitschrift für Physik 234 (1970) 56, \
                          Table 2, column 3, at 0.5 µm";

/// A server guard whose pattern names every run.
const SERVER: &str = "name: Reject Trojan Source Unicode\n\
                      # U+202A to U+202E are the embeddings and overrides.\n\
                      jobs:\n  run: |\n    \
                      pattern='[\\x{202A}-\\x{202E}\\x{2066}-\\x{2069}\\x{200E}\\x{200F}\\x{061C}\\x{200B}-\\x{200D}\\x{2060}]'\n";

#[test]
fn a_citation_carrying_ordinary_characters_outside_ascii_is_clean() {
    assert!(
        reorders(A_CITATION).is_empty(),
        "the fields a citation depends on carry these and must pass"
    );
}

#[test]
fn the_same_citation_with_one_override_in_it_is_refused() {
    let deceived = A_CITATION.replace("Table 2", "Table \u{202E}2");
    let found = reorders(&deceived);
    assert_eq!(found.len(), 1);
    assert_eq!(found[0].1, '\u{202E}');
}

#[test]
fn a_zero_width_space_inside_an_identifier_is_refused() {
    let found = reorders("  \"identifier\": \"si\u{200B}c-4h-0001\"");
    assert_eq!(found.len(), 1);
    assert_eq!(found[0].1, '\u{200B}');
}

#[test]
fn every_run_this_refuses_is_refused_at_both_of_its_ends() {
    for run in reorderings() {
        for end in [run.first, run.last] {
            let found = reorders(&format!("a{end}b"));
            assert_eq!(found.len(), 1, "U+{:04X} is not refused", u32::from(end));
            assert_eq!(found[0].1, end);
        }
    }
}

#[test]
fn a_refusal_carries_the_line_it_is_on() {
    let found = reorders("first\nsecond\nthird\u{2066}\n");
    assert_eq!(found.len(), 1);
    assert_eq!(found[0].0, 3);
}

#[test]
fn the_guard_on_the_server_names_every_run_this_one_refuses() {
    let adrift: Vec<Vec<u8>> =
        adrift_from(SERVER.as_bytes()).iter().map(|run| run.spelled()).collect();
    assert_eq!(adrift, Vec::<Vec<u8>>::new());
}

#[test]
fn a_pattern_that_lost_one_run_is_refused() {
    let narrowed = SERVER.replace("\\x{200B}-\\x{200D}", "");
    let adrift = adrift_from(narrowed.as_bytes());
    assert_eq!(adrift.len(), 1);
    assert_eq!(adrift[0].spelled(), b"\\x{200B}-\\x{200D}".to_vec());
}

#[test]
fn a_guard_with_no_pattern_line_leaves_every_run_adrift() {
    assert_eq!(adrift_from(b"").len(), reorderings().len());
}

#[test]
fn a_pattern_named_only_in_a_comment_leaves_every_run_adrift() {
    let prose = "# pattern is \\x{202A}-\\x{202E} and the rest, spelled in a comment\n";
    assert_eq!(adrift_from(prose.as_bytes()).len(), reorderings().len());
}

#[test]
fn every_guard_that_runs_at_the_forge_says_what_running_it_here_would_cost() {
    for guard in elsewhere_guards() {
        assert!(!guard.name.is_empty());
        assert!(!guard.reads.is_empty(), "{} says nothing it reads", guard.name);
        assert!(!guard.cost.is_empty(), "{} names no cost", guard.name);
    }
}

#[test]
fn a_tree_with_an_override_in_a_citation_is_refused_at_its_line() {
    let deceived = format!("first\n{}\n", A_CITATION.replace("Table 2", "Table \u{202E}2"));
    let listing = tree(&[("a.md", Some(b"clean\n")), ("b.md", Some(deceived.as_bytes()))]);
    let server: Result<Vec<u8>, Vec<u8>> = Ok(SERVER.as_bytes().to_vec());
    assert_eq!(
        refusal(every_guard_is_accounted_for(&listing, &server)),
        "1 character(s) that reorder what a reader sees:\n\n  b.md:2  U+202E\n      \
         an embedding or an override reorders every character after it until it is popped, \
         so a line reads one way and says another\n\nThe codepoint is printed and the \
         character is not, so this refusal can be quoted into an issue without carrying \
         the thing it is about.\n"
    );
}

#[test]
fn a_clean_tree_names_the_guards_that_ran_elsewhere_and_what_it_did_not_judge() {
    let listing = tree(&[
        ("a.md", Some(b"clean\n")),
        ("b.bin", Some(b"\x00\x01")),
        ("c.txt", Some(b"\xff\xfe")),
        ("gone.md", None),
    ]);
    let server: Result<Vec<u8>, Vec<u8>> = Ok(SERVER.as_bytes().to_vec());
    let said = note(every_guard_is_accounted_for(&listing, &server));
    assert!(
        said.starts_with(
            "1 text file(s) read, 1 skipped as binary and not judged, c.txt is not UTF-8 and \
             was not judged\n4 guard(s) run at the forge and not here, and what running each \
             here would cost:\n  DCO sign-off\n    reads every commit"
        ),
        "{said}"
    );
}

#[test]
fn a_tree_whose_server_guard_cannot_be_read_is_refused() {
    let listing = tree(&[("a.md", Some(b"clean\n"))]);
    let server: Result<Vec<u8>, Vec<u8>> = Err(b"No such file or directory".to_vec());
    let why = refusal(every_guard_is_accounted_for(&listing, &server));
    assert!(why.starts_with(".github/workflows/unicode-guard.yml could not be read"), "{why}");
}

// The headless check.

fn as_written(first: &str, second: &str) -> String {
    format!("#[cfg(test)]\nmod tests {{\n    let a = {first}{second};\n}}\n")
}

#[test]
fn a_test_reading_a_display_variable_is_refused() {
    let source = as_written("std::env::var(\"", "DISPLAY\")");
    let reaching = reached(&source, false);
    assert_eq!(reaching.len(), 1, "{reaching:?}");
    assert_eq!(reaching[0].0, 3);
    assert!(reaching[0].2.contains("display"), "{reaching:?}");
}

#[test]
fn a_test_opening_a_socket_is_refused() {
    let source = as_written("std::net::Tcp", "Stream::connect(there)");
    let reaching = reached(&source, false);
    assert_eq!(reaching.len(), 1, "{reaching:?}");
    assert!(reaching[0].2.contains("socket"), "{reaching:?}");
}

#[test]
fn a_test_asking_for_rights_is_refused() {
    let source = as_written("Command::new(\"su", "do\")");
    let reaching = reached(&source, false);
    assert_eq!(reaching.len(), 1, "{reaching:?}");
    assert!(reaching[0].2.contains("administrative rights"), "{reaching:?}");
}

#[test]
fn the_near_neighbour_of_each_one_passes() {
    let neighbours = [
        "std::env::var(\"CARGO_MANIFEST_DIR\")",
        "std::sync::mpsc::channel()",
        "Command::new(\"git\").args([\"ls-files\"])",
    ];
    for neighbour in neighbours {
        let source = as_written(neighbour, "");
        assert!(reached(&source, false).is_empty(), "{neighbour}");
    }
}

#[test]
fn production_code_above_the_test_module_is_not_judged() {
    let source = format!(
        "fn main() {{\n    Command::new(\"su{}\");\n}}\n#[cfg(test)]\nmod tests {{}}\n",
        "do"
    );
    assert!(reached(&source, false).is_empty(), "{source}");
}

#[test]
fn a_file_under_tests_is_read_whole() {
    assert!(is_a_test_file("crates/stoffbuch/tests/reads_a_row.rs"));
    assert!(!is_a_test_file("crates/stoffbuch/src/lib.rs"));
    let source = format!("let a = std::net::Tcp{}::bind(here);\n", "Listener");
    assert!(reached(&source, false).is_empty(), "not test code without the marker");
    assert_eq!(reached(&source, true).len(), 1, "test code when the file is one");
}

#[test]
fn every_forbidden_surface_carries_the_rule_it_comes_from() {
    for forbidden in forbidden_surfaces() {
        assert!(!forbidden.spelling.is_empty());
        assert!(
            forbidden.rule.starts_with("a test may not"),
            "{} states no rule a contributor can act on",
            forbidden.spelling
        );
    }
}

#[test]
fn the_test_surface_check_counts_the_rust_files_and_leaves_the_rest() {
    let listing = tree(&[
        ("a.rs", Some(b"fn a() {}\n")),
        ("b/c.rs", Some(b"fn c() {}\n")),
        ("d.md", Some(b"not rust\n")),
    ]);
    assert_eq!(
        note(a_test_reaches_nothing_it_may_not(&listing)),
        "2 tracked Rust file(s) read, test code only"
    );
}

#[test]
fn a_rust_file_is_known_by_its_extension_in_any_case() {
    assert!(is_rust("src/lib.rs"));
    assert!(is_rust("src/LIB.RS"));
    assert!(!is_rust("src/lib.rs.orig"));
    assert!(!is_rust(".rs"));
}

#[test]
fn a_test_that_reaches_a_socket_is_refused_at_its_file_and_line() {
    let source = as_written("std::net::Udp", "Socket::bind(here)");
    let listing = tree(&[("crates/a/tests/net.rs", Some(source.as_bytes()))]);
    assert_eq!(
        refusal(a_test_reaches_nothing_it_may_not(&listing)),
        "1 thing(s) a test may not reach:\n\n  crates/a/tests/net.rs:3  UdpSocket\n      \
         a test may not require a socket\nA test that genuinely needs one of these is not a \
         test in this suite. It moves\nto the harness for what needs a network or a long run, \
         and the move is the repair\nrather than an exception.\n"
    );
}

// The invariants check.

#[test]
fn a_record_holding_nothing_while_reading_as_though_it_holds_is_refused() {
    let missing_spelling = "Id: x\nHeld: yes\nSubject: crates/\nRule: a rule\n\nbody\n";
    let why = read_invariant("x.md", missing_spelling).expect_err("a record holding nothing");
    assert!(why.contains("Spelling"), "{why}");

    let missing_rule = "Id: x
Held: yes
Subject: crates/
Spelling: q

body
";
    assert!(read_invariant("x.md", missing_rule).is_err());

    let missing_held = "Id: x\nSubject: crates/\nRule: a rule\n\nbody\n";
    assert!(read_invariant("x.md", missing_held).is_err());
}

#[test]
fn a_record_searching_the_records_is_refused() {
    let reaching =
        format!("Id: x\nHeld: yes\nSubject: {INVARIANTS}\nRule: a rule\nSpelling: q\n\nbody\n");
    let why = read_invariant("x.md", &reaching).expect_err("a record searching the records");
    assert!(why.contains(INVARIANTS), "{why}");

    let wider = "Id: x\nHeld: yes\nSubject: docs/\nRule: a rule\nSpelling: q\n\nbody\n";
    assert!(
        read_invariant("x.md", wider).is_err(),
        "a subject the records sit under reaches them too"
    );
}

#[test]
fn a_record_that_cannot_be_held_this_way_is_counted_rather_than_refused() {
    let unheld = "Id: x\nHeld: no\nRule: a rule\nRetired-by: something\n\nwhy not\n";
    assert_eq!(read_invariant("x.md", unheld), Ok(None));
}

const HELD: &[u8] = b"Id: fixture-invariant\nHeld: yes\nSubject: crates/\nSpelling: zzq-forbidden\n\
                      Retired-by: nothing, it is a fixture.\n\
                      Rule: this spelling may not appear under crates/ in the fixture tree.\n\n\
                      The body says what failure it prevents.\n";

const UNHELD: &[u8] = b"Id: fixture-unheld\nHeld: no\nRetired-by: nothing, it is a fixture.\n\
                        Rule: a rule no search of the tree can hold.\n\n\
                        The body says why it cannot be held this way.\n";

fn an_invariant_tree(extra: &[(&str, Option<&[u8]>)]) -> Result<Vec<TrackedFile>, Vec<u8>> {
    let mut files: Vec<(&str, Option<&[u8]>)> = vec![
        (
            "docs/invariants/README.md",
            Some(b"# The records\n\nProse about the shape of one, and not a record.\n"),
        ),
        ("docs/invariants/fixture-invariant.md", Some(HELD)),
        ("docs/invariants/fixture-unheld.md", Some(UNHELD)),
        ("docs/elsewhere.md", Some(b"An ordinary document.\n")),
        ("crates/clean.rs", Some(b"fn a() {}\n")),
    ];
    files.extend_from_slice(extra);
    tree(&files)
}

#[test]
fn a_tree_breaking_no_invariant_says_how_many_are_held_unheld_and_searched() {
    let listing = an_invariant_tree(&[]);
    assert_eq!(
        note(no_invariant_is_broken(&listing)),
        "1 held, 1 recorded as not holdable this way, 1 file(s) searched"
    );
}

#[test]
fn a_broken_invariant_is_refused_at_the_line_it_is_on() {
    let listing = an_invariant_tree(&[(
        "crates/breaks.rs",
        Some(b"fn a() {}\n\nfn b() { let x = ZZQ-FORBIDDEN; }\n"),
    )]);
    let why = refusal(no_invariant_is_broken(&listing));
    assert!(why.contains("1 line(s) break an invariant"), "{why}");
    assert!(why.contains("crates/breaks.rs:3"), "{why}");
    assert!(why.contains("fixture-invariant"), "{why}");
    assert!(why.contains("this spelling may not appear under crates/"), "{why}");
}

#[test]
fn the_search_ignores_case_and_does_not_require_a_word_boundary() {
    let record = "Held: yes\nSubject: crates/\nSpelling: assumed_temperature\nRule: a rule\n";
    let held = read_invariant("x.md", record).expect("a usable record").expect("a held record");
    let all = vec![held];
    assert_eq!(breaks("const ASSUMED_TEMPERATURE: f64 = 1.0;", &all).len(), 1);
    assert_eq!(breaks("    self.assumed_temperature_kelvin = 293.15;", &all).len(), 1);
    assert_eq!(breaks("    let t = stated_temperature(row);", &all).len(), 0);
}

#[test]
fn a_record_is_a_document_in_the_records_directory_and_the_readme_is_not() {
    assert!(is_a_record("docs/invariants/no-default.md"));
    assert!(is_a_record("docs/invariants/NO-DEFAULT.MD"));
    assert!(!is_a_record("docs/invariants/README.md"));
    assert!(!is_a_record("docs/invariants/notes.txt"));
}

#[test]
fn a_record_names_itself_by_its_file_name() {
    let record = "Held: yes\nSubject: crates/\nSpelling: Q\nRule:  a rule \n";
    let held = read_invariant("docs/invariants/a-rule.md.md", record)
        .expect("a usable record")
        .expect("a held record");
    assert_eq!(held.id, b"a-rule".to_vec());
    assert_eq!(held.subject, b"crates/".to_vec());
    assert_eq!(held.rule, b"a rule".to_vec());
    assert_eq!(held.spellings, vec![b"q".to_vec()]);
}

#[test]
fn an_unreadable_record_stops_the_run_as_one_that_could_not_judge() {
    let listing = tree(&[("docs/invariants/gone.md", None)]);
    let judged = no_invariant_is_broken(&listing);
    assert_eq!(
        judged,
        Judged::CouldNotJudge(b"docs/invariants/gone.md: No such file or directory (os error 2)".to_vec())
    );
}

#[test]
fn an_unusable_record_is_refused_by_name() {
    let listing = tree(&[("docs/invariants/x.md", Some(b"Id: x\n\nno held line\n"))]);
    assert_eq!(
        refusal(no_invariant_is_broken(&listing)),
        "docs/invariants/x.md is not a usable record.\n\nIt carries no Held line, so whether \
         the run searches for it is not stated.\n"
    );
}

// The refusal surface.

fn a_file(module_docs: &str, body: &str) -> String {
    format!("{module_docs}\n\nfn judge() {{\n    {body}\n}}\n#[cfg(test)]\nmod tests {{}}\n")
}

#[test]
fn a_file_that_decides_a_refusal_and_says_so_is_in_the_surface() {
    let source =
        a_file(&format!("//! A check.\n//!\n//! {SURFACE}"), "return Judged::Refused(why);");
    assert_eq!(names_itself(&source), (true, true));
}

#[test]
fn a_file_that_decides_a_refusal_without_saying_so_is_refused() {
    let source = a_file("//! A check.", "return Judged::Refused(why);");
    assert_eq!(names_itself(&source), (false, true));
}

#[test]
fn a_file_that_says_so_and_decides_nothing_is_refused() {
    let source = a_file(&format!("//! A crate.\n//! {SURFACE}"), "let a = 1;");
    assert_eq!(names_itself(&source), (true, false));
}

#[test]
fn a_comment_about_a_refusal_does_not_put_a_file_in_the_surface() {
    let source = a_file("//! A crate.", "// what would be Judged::Refused elsewhere");
    assert_eq!(names_itself(&source), (false, false));
}

#[test]
fn a_refusal_in_the_suite_is_not_the_surface() {
    let source = "//! A crate.\n#[cfg(test)]\nmod tests {\n    Judged::Refused(why);\n}\n";
    assert_eq!(names_itself(source), (false, false));
}

#[test]
fn the_surface_is_the_files_that_name_themselves_and_the_rest_are_counted() {
    let judges =
        a_file(&format!("//! A check.\n//!\n//! {SURFACE}"), "return Judged::Refused(why);");
    let quiet = a_file("//! Not a check.", "return 1;");
    let listing = tree(&[
        ("crates/judge.rs", Some(judges.as_bytes())),
        ("crates/quiet.rs", Some(quiet.as_bytes())),
        ("docs/note.md", Some(b"not rust\n")),
    ]);
    assert_eq!(
        note(the_refusal_surface_is_named(&listing)),
        "2 tracked Rust file(s) read, 1 in the refusal surface: crates/judge.rs"
    );
}

#[test]
fn the_command_that_prints_the_surface_prints_the_same_files_the_check_placed() {
    let judges =
        a_file(&format!("//! A check.\n//!\n//! {SURFACE}"), "return Judged::Refused(why);");
    let quiet = a_file("//! Not a check.", "return 1;");
    let listing = tree(&[
        ("crates/judge.rs", Some(judges.as_bytes())),
        ("crates/quiet.rs", Some(quiet.as_bytes())),
    ]);
    assert_eq!(
        refusal_surface(&listing).expect("a tree git can be asked about"),
        vec![b"crates/judge.rs".to_vec()],
        "the scope a mutation run is given is what the check placed, or the two drift"
    );
}

#[test]
fn a_file_that_disagrees_with_itself_is_refused_and_named() {
    let listing = tree(&[("crates/quiet.rs", Some(b"fn a() { Judged::Refused(x) }\n"))]);
    let why = refusal(the_refusal_surface_is_named(&listing));
    assert!(
        why.starts_with(
            "1 file(s) disagree with what they say about the refusal surface:\n\n  \
             crates/quiet.rs\n      decides a refusal and its module documentation does not say so\n"
        ),
        "{why}"
    );
}

// A finding accepted rather than fixed.

#[test]
fn a_suppression_naming_a_record_that_is_in_the_tree_passes() {
    let records = vec![b"docs/accepted-findings/a-lint-that-is-wrong-here.md".to_vec()];
    let said = format!(
        "#[all{}ow(clippy::x)] // docs/accepted-findings/a-lint-that-is-wrong-here.md",
        ""
    );
    let found = suppressions(&said);
    assert_eq!(found.len(), 1, "{found:?}");
    assert_eq!(record_named(&found[0].2, &records), Some(0));
}

#[test]
fn a_suppression_naming_no_record_is_refused() {
    let said = format!("#[all{}ow(clippy::x)]", "");
    let found = suppressions(&said);
    assert_eq!(found.len(), 1, "{found:?}");
    assert_eq!(
        record_named(
            &found[0].2,
            &vec![b"docs/accepted-findings/a-lint-that-is-wrong-here.md".to_vec()]
        ),
        None
    );
}

#[test]
fn an_ordinary_attribute_is_not_a_suppression() {
    for ordinary in ["#[derive(Debug)]", "#[must_use]", "#[test]", "#[cfg(test)]"] {
        assert!(suppressions(ordinary).is_empty(), "{ordinary}");
    }
}

#[test]
fn the_workflow_auditor_is_silenced_by_a_comment_and_that_counts_too() {
    let said = "      # zizmor: ignore[unpinned-uses]";
    assert_eq!(suppressions(said).len(), 1);
    assert!(is_searched_for_a_finding(".github/workflows/w.yml"));
    assert!(!is_searched_for_a_finding("docs/accepted-findings/README.md"));
}

fn names_a_record() -> String {
    format!("    #[all{}ow(clippy::needless_range_loop)] // docs/accepted-findings/why.md", "")
}

fn names_nothing() -> String {
    format!("    #[all{}ow(clippy::needless_range_loop)]", "")
}

#[test]
fn a_suppression_and_the_record_it_names_are_counted_and_nothing_is_refused() {
    let thing = format!("fn a() {{}}\n\n{}\nfn b() {{}}\n", names_a_record());
    let listing = tree(&[
        (
            "docs/accepted-findings/README.md",
            Some(b"# Accepted findings\n\nProse, and not a record.\n"),
        ),
        (
            "docs/accepted-findings/why.md",
            Some(b"The finding, and the argument for accepting it.\n"),
        ),
        ("crates/thing.rs", Some(thing.as_bytes())),
        (".github/workflows/w.yml", Some(b"name: w\n")),
        ("docs/note.md", Some(b"outside the subject\n")),
    ]);
    assert_eq!(
        note(every_accepted_finding_is_recorded(&listing)),
        "2 file(s) searched, 1 suppression(s), 1 record(s)"
    );
}

#[test]
fn a_suppression_naming_no_record_is_refused_at_the_line_it_is_on() {
    let thing = format!("fn a() {{}}\n\n{}\nfn b() {{}}\n", names_nothing());
    let listing = tree(&[("crates/thing.rs", Some(thing.as_bytes()))]);
    let why = refusal(every_accepted_finding_is_recorded(&listing));
    assert!(why.contains("1 finding(s) turned off with the reason nowhere"), "{why}");
    assert!(why.contains("crates/thing.rs:3"), "{why}");
}

#[test]
fn a_record_no_suppression_names_any_more_is_refused_from_the_other_side() {
    let listing = tree(&[
        (
            "docs/accepted-findings/why.md",
            Some(b"The finding, and the argument for accepting it.\n"),
        ),
        ("crates/thing.rs", Some(b"fn a() {}\n")),
    ]);
    let why = refusal(every_accepted_finding_is_recorded(&listing));
    assert!(
        why.contains(
            "docs/accepted-findings/why.md accepts a finding that nothing suppresses any more."
        ),
        "{why}"
    );
}

// Which manifest is the root's.

#[test]
fn a_package_manifest_is_not_the_workspace_root() {
    let package = "[package]\nname = \"stoffbuch-gate\"\nedition.workspace = true\n";
    assert!(!declares_a_workspace(package));
}

#[test]
fn the_workspace_manifest_is_the_root() {
    let workspace = "[workspace]\nmembers = [\"crates/*\"]\nresolver = \"3\"\n";
    assert!(declares_a_workspace(workspace));
}

#[test]
fn a_table_whose_name_merely_starts_with_the_word_is_not_the_root() {
    assert!(!declares_a_workspace("[workspace.package]\nedition = \"2024\"\n"));
    assert!(!declares_a_workspace("[workspace.lints.rust]\n"));
}

#[test]
fn a_header_with_trailing_space_is_still_the_root_and_a_leading_one_is_not() {
    assert!(declares_a_workspace("[package]\n[workspace]   \r\n"));
    assert!(!declares_a_workspace("  [workspace]\n"));
}

#[test]
fn a_codepoint_is_spelled_with_at_least_four_digits_and_as_many_more_as_it_needs() {
    let one = Reordering { first: '\u{B}', last: '\u{B}', rule: "a rule" };
    assert_eq!(one.spelled(), b"\\x{000B}".to_vec());
    let wide = Reordering { first: '\u{1F600}', last: '\u{10FFFF}', rule: "a rule" };
    assert_eq!(wide.spelled(), b"\\x{1F600}-\\x{10FFFF}".to_vec());
}
