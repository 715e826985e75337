use stoffbuch_gate::parts::{
    join_words, outcome_of_check, outcome_of_command, parts, width, Progress, Runs,
};
use stoffbuch_gate::tree::Judged;
use stoffbuch_gate::report;
use stoffbuch_gate::report::{tail, verdict, Outcome, Reported};
use stoffbuch_gate::Exit;

/// What no time at all is written as.
fn zero() -> Vec<u8> {
    b"0.00s".to_vec()
}

fn ran(name: &'static str) -> Reported {
    Reported { name, examines: "what it examines", outcome: Outcome::Ran(zero(), None) }
}

fn with(name: &'static str, outcome: Outcome) -> Reported {
    Reported { name, examines: "what it examines", outcome }
}

fn text(bytes: Vec<u8>) -> String {
    String::from_utf8(bytes).expect("what the report writes is UTF-8")
}

#[test]
fn a_run_where_nothing_refused_is_clean() {
    let results = vec![ran("format"), with("schema", Outcome::Skipped("a schema exists"))];
    assert_eq!(verdict(&results), Exit::Clean);
    assert_eq!(verdict(&results).code(), 0);
}

#[test]
fn a_run_where_a_part_refused_is_a_refusal() {
    let results =
        vec![ran("format"), with("lint", Outcome::Failed(zero(), b"said this".to_vec()))];
    assert_eq!(verdict(&results), Exit::Refused);
    assert_eq!(verdict(&results).code(), 1);
}

#[test]
fn a_run_where_a_part_could_not_be_started_could_not_judge() {
    let results =
        vec![ran("format"), with("lint", Outcome::Unstartable(b"no such program".to_vec()))];
    assert_eq!(verdict(&results), Exit::CouldNotJudge);
    assert_eq!(verdict(&results).code(), 2);
}

#[test]
fn a_part_that_could_not_be_started_outranks_a_refusal() {
    let results = vec![
        with("format", Outcome::Failed(zero(), b"said this".to_vec())),
        with("lint", Outcome::Unstartable(b"no such program".to_vec())),
    ];
    assert_eq!(verdict(&results), Exit::CouldNotJudge);
}

#[test]
fn a_skipped_part_says_what_would_make_it_run() {
    let printed = text(report::line(&with("schema", Outcome::Skipped("there is a schema to read")), 6));
    assert!(printed.contains("skipped"), "{printed}");
    assert!(printed.contains("runs when there is a schema to read"), "{printed}");
}

#[test]
fn a_failed_part_carries_everything_it_wrote() {
    let said = "error: this is the thing to fix";
    let printed = text(report::line(&with("lint", Outcome::Failed(zero(), said.as_bytes().to_vec())), 6));
    assert!(printed.contains(said), "{printed}");
}

#[test]
fn a_part_after_a_failure_is_reported_as_not_reached() {
    let printed = text(report::line(&with("tests", Outcome::NotReached), 6));
    assert!(printed.contains("not reached"), "{printed}");
}

#[test]
fn the_tail_counts_every_part_in_one_of_its_classes() {
    let results = vec![
        ran("format"),
        with("lint", Outcome::Failed(zero(), Vec::new())),
        with("schema", Outcome::Skipped("a schema exists")),
        with("tests", Outcome::NotReached),
        with("clippy", Outcome::Unstartable(b"no such program".to_vec())),
    ];
    assert_eq!(
        text(tail(&results)),
        "\ncould not judge: 5 part(s), 1 ran, 1 skipped, 1 refused, \
         1 could not be started, 1 not reached\n"
    );
}

#[test]
fn every_part_is_named_and_says_what_it_examines() {
    for part in parts() {
        assert!(!part.name.is_empty());
        assert!(!part.examines.is_empty(), "{} says nothing about its subject", part.name);
        match part.runs {
            Runs::Command(argv) => assert!(!argv.is_empty(), "{} names no program", part.name),
            Runs::Check(_) => {}
            Runs::NotBuilt(would_run_when) => {
                assert!(!would_run_when.is_empty(), "{} says nothing", part.name);
            }
        }
    }
}

#[test]
fn a_part_that_ran_prints_what_it_did_not_reach() {
    let note = "36 text file(s) read, 1 skipped as binary and not judged";
    let printed = text(report::line(
        &with("line-endings", Outcome::Ran(zero(), Some(note.as_bytes().to_vec()))),
        12,
    ));
    assert!(printed.contains("ran"), "{printed}");
    assert!(printed.contains(note), "{printed}");
}

#[test]
fn a_note_of_several_lines_is_indented_a_line_at_a_time() {
    let printed = text(report::line(
        &with("guards", Outcome::Ran(zero(), Some(b"first\nsecond".to_vec()))),
        6,
    ));
    assert_eq!(printed.lines().count(), 3, "{printed}");
    for printed_line in printed.lines().skip(1) {
        assert!(printed_line.starts_with("        "), "{printed_line:?}");
    }
}

#[test]
fn every_verdict_starts_at_the_same_column_whatever_the_part_is_called() {
    let all = parts();
    let longest = all.iter().map(|part| part.name.len()).max().expect("the run has parts");
    let columns: Vec<Option<usize>> =
        all.iter().map(|part| text(report::line(&ran(part.name), width())).find("  ran")).collect();
    assert!(
        columns.iter().all(|at| *at == Some(longest)),
        "the verdicts do not line up: {columns:?} against a longest name of {longest}"
    );
}

#[test]
fn each_line_is_written_word_for_word() {
    assert_eq!(
        text(report::line(&with("lint", Outcome::Ran(b"1.25s".to_vec(), None)), 8)),
        "lint      ran        1.25s  what it examines\n"
    );
    assert_eq!(
        text(report::line(&with("lint", Outcome::Failed(b"0.50s".to_vec(), b"said this \n\n".to_vec())), 6)),
        "lint    refused    0.50s  what it examines\n\nlint refused. Everything it wrote:\n\nsaid this\n"
    );
    assert_eq!(
        text(report::line(&with("lint", Outcome::Unstartable(b"no such program".to_vec())), 4)),
        "lint  unknown          what it examines\n\nlint could not be started, so nothing about that\n\
         is known either way:\n\nno such program\n\n"
    );
    assert_eq!(
        text(report::line(&with("schema", Outcome::Skipped("a schema exists")), 6)),
        "schema  skipped          what it examines\n        runs when a schema exists\n"
    );
}

#[test]
fn a_clean_tail_counts_what_ran_and_says_clean() {
    let results = vec![ran("a"), ran("b"), with("c", Outcome::Skipped("later"))];
    assert_eq!(
        text(tail(&results)),
        "\nclean: 3 part(s), 2 ran, 1 skipped, 0 refused, 0 could not be started, 0 not reached\n"
    );
}

#[test]
fn a_run_stops_at_the_first_failure_and_reaches_nothing_after_it() {
    let mut run = Progress::new();
    assert!(run.executes_next());
    run.record("one", "first", Outcome::Ran(zero(), None), 5);
    assert!(run.executes_next());
    run.record("two", "second", Outcome::Failed(zero(), b"wrong".to_vec()), 5);
    assert!(!run.executes_next());
    let after = text(run.record("three", "third", Outcome::Ran(zero(), None), 5));
    assert_eq!(after, "three  not reached      third\n");
    let (closing, verdict) = run.close();
    assert_eq!(
        text(closing),
        "\nrefused: 3 part(s), 1 ran, 0 skipped, 1 refused, 0 could not be started, 1 not reached\n"
    );
    assert_eq!(verdict, Exit::Refused);
}

#[test]
fn the_names_are_padded_to_the_longest_of_them() {
    assert_eq!(width(), "line-endings".len());
    assert_eq!(parts().len(), 11);
}

fn took() -> Vec<u8> {
    b"0.25s".to_vec()
}

#[test]
fn a_check_that_found_nothing_ran_with_its_note() {
    match outcome_of_check(Judged::Nothing(Some(b"3 read".to_vec())), took()) {
        Outcome::Ran(t, Some(note)) => {
            assert_eq!(t, took());
            assert_eq!(note, b"3 read".to_vec());
        }
        _ => panic!("expected a part that ran with its note"),
    }
}

#[test]
fn a_check_that_refused_failed_with_its_reason() {
    match outcome_of_check(Judged::Refused(b"why".to_vec()), took()) {
        Outcome::Failed(t, why) => {
            assert_eq!(t, took());
            assert_eq!(why, b"why".to_vec());
        }
        _ => panic!("expected a part that failed"),
    }
}

#[test]
fn a_check_that_could_not_judge_could_not_be_started() {
    match outcome_of_check(Judged::CouldNotJudge(b"no git".to_vec()), took()) {
        Outcome::Unstartable(why) => assert_eq!(why, b"no git".to_vec()),
        _ => panic!("a check that could not judge is never a refusal"),
    }
}

#[test]
fn a_command_that_could_not_start_says_its_command_line_and_why() {
    let argv = vec!["cargo", "fmt", "--check"];
    assert_eq!(join_words(&argv), b"cargo fmt --check".to_vec());
    match outcome_of_command(&argv, Err(b"No such file or directory".to_vec()), took()) {
        Outcome::Unstartable(why) => {
            assert_eq!(text(why), "cargo fmt --check: No such file or directory")
        }
        _ => panic!("expected a part that could not be started"),
    }
}

#[test]
fn a_command_that_failed_carries_its_output_then_its_errors() {
    let argv = vec!["cargo", "test"];
    match outcome_of_command(&argv, Ok((false, b"out\n".to_vec(), b"err\n".to_vec())), took()) {
        Outcome::Failed(t, said) => {
            assert_eq!(t, took());
            assert_eq!(text(said), "out\nerr\n");
        }
        _ => panic!("expected a part that failed"),
    }
}

#[test]
fn a_command_that_succeeded_ran_with_no_note() {
    let argv = vec!["cargo", "test"];
    match outcome_of_command(&argv, Ok((true, b"out".to_vec(), b"err".to_vec())), took()) {
        Outcome::Ran(t, None) => assert_eq!(t, took()),
        _ => panic!("expected a part that ran with no note"),
    }
}
