use stoffbuch_gate::canonical::{
    canonical, every_record_is_in_the_canonical_form, first_difference, is_a_record, nth_line,
};
use stoffbuch_gate::scan::{Fault, Scan};
use stoffbuch_gate::tree::{Judged, TrackedFile};

/// Every fixture below is a byte string in this file rather than a file in
/// the tree: the form is a statement about line endings and trailing bytes.
fn canonical_row() -> &'static [u8] {
    b"{\n  \"digits\": \"1.1200\",\n  \"unit\": \"eV\"\n}\n"
}

fn text(bytes: Vec<u8>) -> String {
    String::from_utf8(bytes).expect("what the library writes is UTF-8")
}

fn says(fault: &Fault) -> String {
    text(fault.says())
}

#[test]
fn a_record_in_the_form_is_left_exactly_as_it_stands() {
    let form = canonical(canonical_row()).expect("a row this form can hold");
    assert_eq!(form.as_slice(), canonical_row());
}

#[test]
fn keys_out_of_order_are_not_the_form_and_the_form_puts_them_back() {
    let swapped = b"{\n  \"unit\": \"eV\",\n  \"digits\": \"1.1200\"\n}\n";
    let form = canonical(swapped).expect("a row this form can hold");
    assert_ne!(form.as_slice(), swapped.as_slice());
    assert_eq!(form.as_slice(), canonical_row());
}

#[test]
fn the_indentation_is_two_spaces_a_level_and_four_is_refused() {
    let four = b"{\n    \"digits\": \"1.1200\",\n    \"unit\": \"eV\"\n}\n";
    let form = canonical(four).expect("a row this form can hold");
    assert_eq!(form.as_slice(), canonical_row());
}

#[test]
fn carriage_returns_are_not_the_form() {
    let written = b"{\r\n  \"digits\": \"1.1200\",\r\n  \"unit\": \"eV\"\r\n}\r\n";
    let form = canonical(written).expect("a row this form can hold");
    assert_eq!(form.as_slice(), canonical_row());
}

#[test]
fn a_missing_trailing_line_feed_is_not_the_form() {
    let without = b"{\n  \"digits\": \"1.1200\",\n  \"unit\": \"eV\"\n}";
    let form = canonical(without).expect("a row this form can hold");
    assert_eq!(form.as_slice(), canonical_row());
}

#[test]
fn a_number_with_more_figures_than_a_double_carries_survives() {
    let digits = "1.00000000000000000000000000001";
    let row = format!("{{\n  \"value\": {digits}\n}}\n");
    let form = text(canonical(row.as_bytes()).expect("a row this form can hold"));
    assert_eq!(form, row);
    assert!(form.contains(digits), "{form}");

    let naive = digits.parse::<f64>().expect("a number a double will take");
    assert_ne!(
        naive.to_string(),
        digits,
        "the naive representation would have to lose this for the test to mean anything"
    );
}

#[test]
fn a_trailing_zero_survives_and_a_double_would_not_have_kept_it() {
    let row = "{\n  \"digits\": 0.020\n}\n";
    assert_eq!(text(canonical(row.as_bytes()).expect("a row")), row);
    let naive = "0.020".parse::<f64>().expect("a number a double will take");
    assert_eq!(naive.to_string(), "0.02");
}

#[test]
fn an_exponent_keeps_the_spelling_it_was_written_with() {
    let row = "{\n  \"digits\": 1.5E+03\n}\n";
    assert_eq!(text(canonical(row.as_bytes()).expect("a row")), row);
}

#[test]
fn two_members_with_one_name_are_refused_rather_than_resolved() {
    let twice = b"{\n  \"unit\": \"eV\",\n  \"unit\": \"meV\"\n}\n";
    assert_eq!(
        canonical(twice),
        Err(Fault::TwoMembersWithOneName { line: 3, name: b"unit".to_vec() })
    );
}

#[test]
fn two_members_with_names_that_merely_look_alike_are_not_refused() {
    let neighbour = b"{\n  \"unit\": \"eV\",\n  \"units\": \"meV\"\n}\n";
    assert!(canonical(neighbour).is_ok());
}

#[test]
fn a_byte_order_mark_is_refused_by_name() {
    let mut with = vec![0xEF, 0xBB, 0xBF];
    with.extend_from_slice(canonical_row());
    assert_eq!(canonical(&with), Err(Fault::ByteOrderMark));
    assert!(canonical(canonical_row()).is_ok(), "the neighbour");
}

#[test]
fn bytes_that_are_not_text_are_refused_by_name() {
    assert_eq!(canonical(&[0x7B, 0xFF, 0x7D]), Err(Fault::NotText));
}

#[test]
fn a_file_that_is_not_json_is_refused_at_the_line_the_reading_stopped_on() {
    let broken = b"{\n  \"digits\": \"1.1200\",\n  \"unit\": eV\n}\n";
    let Err(Fault::Unreadable { line, why }) = canonical(broken) else {
        panic!("a file that is not json");
    };
    assert_eq!(line, 3);
    assert!(why.contains("expected a value"), "{why}");
}

#[test]
fn something_after_the_value_the_file_holds_is_refused() {
    let two = b"{\n  \"digits\": \"1.1200\"\n}\n{\n  \"digits\": \"1.13\"\n}\n";
    let Err(Fault::Unreadable { line, why }) = canonical(two) else {
        panic!("a file holding two values");
    };
    assert_eq!(line, 4);
    assert!(why.contains("something follows the value"), "{why}");
    assert!(
        canonical(b"{\n  \"digits\": \"1.1200\"\n}\n").is_ok(),
        "the neighbour, which is the same first value with nothing after it"
    );
}

#[test]
fn an_escape_whose_digits_are_not_hexadecimal_is_refused() {
    let signed = b"{\n  \"note\": \"\\u+041\"\n}\n";
    let Err(Fault::Unreadable { why, .. }) = canonical(signed) else {
        panic!("an escape whose digits are not hexadecimal");
    };
    assert!(why.contains("not hexadecimal"), "{why}");
    let neighbour = b"{\n  \"note\": \"\\u0041\"\n}\n";
    assert_eq!(text(canonical(neighbour).expect("a row")), "{\n  \"note\": \"A\"\n}\n");
}

#[test]
fn a_refusal_names_which_of_the_faults_it_is() {
    let said = [
        says(&Fault::NotText),
        says(&Fault::ByteOrderMark),
        says(&Fault::Unreadable { line: 3, why: "expected a value" }),
        says(&Fault::TwoMembersWithOneName { line: 3, name: b"unit".to_vec() }),
    ];
    for (at, one) in said.iter().enumerate() {
        assert!(!one.is_empty());
        assert!(!said[at + 1..].contains(one), "two faults say the same thing: {one}");
    }
}

#[test]
fn a_negative_number_keeps_its_sign() {
    let row = "{\n  \"digits\": -1.1200\n}\n";
    assert_eq!(text(canonical(row.as_bytes()).expect("a row")), row);
    let exponent = "{\n  \"digits\": 1.5e-03\n}\n";
    assert_eq!(text(canonical(exponent.as_bytes()).expect("a row")), exponent);
}

#[test]
fn every_escape_the_grammar_has_is_read_and_written_back() {
    for escape in ["\\\"", "\\\\", "\\b", "\\f", "\\n", "\\r", "\\t"] {
        let row = format!("{{\n  \"note\": \"a{escape}b\"\n}}\n");
        let form = canonical(row.as_bytes())
            .unwrap_or_else(|fault| panic!("{escape}: {}", says(&fault)));
        assert_eq!(text(form), row, "{escape}");
    }
}

#[test]
fn a_control_character_inside_a_string_is_refused_and_its_escape_is_not() {
    let raw = b"{\n  \"note\": \"two\tcolumns\"\n}\n";
    let Err(Fault::Unreadable { line, why }) = canonical(raw) else {
        panic!("a control character inside a string");
    };
    assert_eq!(line, 2);
    assert!(why.contains("control character"), "{why}");
    let escaped = "{\n  \"note\": \"two\\tcolumns\"\n}\n";
    assert_eq!(text(canonical(escaped.as_bytes()).expect("a row")), escaped);
}

#[test]
fn an_escape_the_grammar_does_not_require_is_written_out() {
    let escaped = b"{\n  \"locator\": \"table 2\\/3\"\n}\n";
    let form = text(canonical(escaped).expect("a row"));
    assert_eq!(form, "{\n  \"locator\": \"table 2/3\"\n}\n");
}

#[test]
fn an_escape_the_grammar_does_require_is_kept_and_its_digits_are_lower_case() {
    let upper = b"{\n  \"note\": \"a\\u001Fb\"\n}\n";
    let form = text(canonical(upper).expect("a row"));
    assert_eq!(form, "{\n  \"note\": \"a\\u001fb\"\n}\n");
}

#[test]
fn a_character_above_the_basic_plane_survives_its_surrogate_pair() {
    let pair = b"{\n  \"note\": \"\\ud83d\\udd2c\"\n}\n";
    let one = char::from_u32(0x0001_F52C).expect("a character");
    let form = text(canonical(pair).expect("a row"));
    assert_eq!(form, format!("{{\n  \"note\": \"{one}\"\n}}\n"));
}

#[test]
fn half_a_surrogate_pair_with_no_other_half_is_refused() {
    let lonely = b"{\n  \"note\": \"\\ud83d\"\n}\n";
    let Err(Fault::Unreadable { why, .. }) = canonical(lonely) else {
        panic!("half a pair");
    };
    assert!(why.contains("surrogate pair"), "{why}");
}

#[test]
fn an_empty_object_and_an_empty_array_are_written_on_one_line() {
    let empties = "{\n  \"chain\": [],\n  \"conditions\": {}\n}\n";
    assert_eq!(text(canonical(empties.as_bytes()).expect("a row")), empties);
}

#[test]
fn an_array_keeps_the_order_it_was_written_in() {
    let chain = "{\n  \"chain\": [\n    \"second\",\n    \"first\"\n  ]\n}\n";
    assert_eq!(text(canonical(chain.as_bytes()).expect("a row")), chain);
}

#[test]
fn only_a_file_under_the_register_with_the_extension_is_a_record() {
    assert!(is_a_record("register/rows/sb-4KQ7N2XJ0P/sb-4KQ7N2XJ0P@1.json"));
    assert!(!is_a_record("register/rows/sb-4KQ7N2XJ0P/sb-4KQ7N2XJ0P@1.tsv"));
    assert!(!is_a_record("schema/measured-value.schema.json"));
    assert!(!is_a_record("crates/stoffbuch-schema/fixtures/x/valid.json"));
}

#[test]
fn the_difference_reported_is_the_first_one() {
    let found = "a\nb\nc\n";
    let said = text(first_difference(found, "a\nB\nC\n").expect("two texts that differ"));
    assert!(said.starts_with("line 2 reads   b"), "{said}");
    assert!(said.contains("the form is   B"), "{said}");
    assert_eq!(first_difference(found, found), None);
}

#[test]
fn a_file_carrying_a_line_the_form_does_not_have_is_reported_at_that_line() {
    let found = "a\nb\nc\n";
    let said = text(first_difference(found, "a\nb\n").expect("two texts that differ"));
    assert!(said.starts_with("line 3 reads   c"), "{said}");
    assert!(said.contains("the form is   nothing, the text ends above here"), "{said}");
}

#[test]
fn a_difference_no_reader_could_see_is_said_to_be_one() {
    let said = text(first_difference("a\r\nb\n", "a\nb\n").expect("two texts that differ"));
    assert!(said.contains("does not print"), "{said}");
    let ending = text(first_difference("a\nb", "a\nb\n").expect("two texts that differ"));
    assert!(ending.contains("does not print"), "{ending}");
}

// The check, given a tree: the tracked files with what their working copy
// holds, or what reading it said.

const ROW: &[u8] = b"{\n  \"digits\": \"1.1200\",\n  \"unit\": \"eV\"\n}\n";

fn tree(files: &[(&str, Option<&[u8]>)]) -> Result<Vec<TrackedFile>, Vec<u8>> {
    Ok(files
        .iter()
        .map(|(name, bytes)| TrackedFile {
            name: name.as_bytes().to_vec(),
            bytes: match bytes {
                Some(b) => Ok(b.to_vec()),
                None => Err(b"No such file or directory (os error 2)".to_vec()),
            },
        })
        .collect())
}

fn note(judged: Judged) -> String {
    match judged {
        Judged::Nothing(Some(note)) => text(note),
        other => panic!("expected a clean verdict carrying a note, and got {other:?}"),
    }
}

fn what_it_wrote(judged: Judged) -> String {
    match judged {
        Judged::Refused(why) => text(why),
        other => panic!("expected a refusal, and got {other:?}"),
    }
}

#[test]
fn a_tree_of_records_in_the_form_is_reported_with_the_count_of_what_was_read() {
    let listing = tree(&[
        ("register/rows/sb-A/sb-A@1.json", Some(ROW)),
        ("register/rows/sb-A/sb-A@1.n-and-k.tsv", Some(b"T\tn\n300\t3.42\n")),
        ("schema/measured-value.schema.json", Some(b"{\n  \"a\": 1\n}\n")),
    ]);
    assert_eq!(
        note(every_record_is_in_the_canonical_form(&listing)),
        "1 record(s) read under register/"
    );
}

#[test]
fn a_record_out_of_the_form_is_refused_with_the_file_and_the_line() {
    let swapped: &[u8] = b"{\n  \"unit\": \"eV\",\n  \"digits\": \"1.1200\"\n}\n";
    let listing = tree(&[("register/rows/sb-A/sb-A@1.json", Some(swapped))]);
    let why = what_it_wrote(every_record_is_in_the_canonical_form(&listing));
    assert!(why.contains("1 record(s) are not in the canonical form"), "{why}");
    assert!(why.contains("  register/rows/sb-A/sb-A@1.json"), "{why}");
    assert!(why.contains("line 2 reads"), "{why}");
}

#[test]
fn a_record_that_is_not_this_format_at_all_is_refused_by_the_fault_it_has() {
    let listing = tree(&[("register/rows/sb-A/sb-A@1.json", Some(b"digits: 1.1200\n"))]);
    let why = what_it_wrote(every_record_is_in_the_canonical_form(&listing));
    assert!(why.contains("line 1: expected a value"), "{why}");
}

#[test]
fn a_tracked_record_absent_from_the_working_copy_is_counted_rather_than_passed_over() {
    let listing = tree(&[
        ("register/rows/sb-A/sb-A@1.json", Some(ROW)),
        ("register/rows/sb-B/sb-B@1.json", None),
    ]);
    assert_eq!(
        note(every_record_is_in_the_canonical_form(&listing)),
        "1 record(s) read under register/, 1 tracked but not in the working copy"
    );
}

#[test]
fn a_directory_git_knows_nothing_about_is_not_reported_as_a_register_with_no_records() {
    let listing: Result<Vec<TrackedFile>, Vec<u8>> =
        Err(b"git ls-files -z said: fatal: not a git repository".to_vec());
    let judged = every_record_is_in_the_canonical_form(&listing);
    assert!(
        matches!(judged, Judged::CouldNotJudge(_)),
        "expected a run that could not judge, and got {judged:?}"
    );
}

#[test]
fn the_whole_refusal_is_the_count_the_records_and_the_rule() {
    let swapped: &[u8] = b"{\n  \"unit\": \"eV\",\n  \"digits\": \"1.1200\"\n}\n";
    let listing = tree(&[("register/a.json", Some(swapped))]);
    assert_eq!(
        what_it_wrote(every_record_is_in_the_canonical_form(&listing)),
        [
            "1 record(s) are not in the canonical form:\n\n",
            "  register/a.json\n",
            "      line 2 reads     \"unit\": \"eV\",\n",
            "      the form is     \"digits\": \"1.1200\",\n",
            "\nThe form is fixed in docs/decisions/means-format-and-language.md and a record\n",
            "stored in it makes a diff that shows the field that changed rather than a\n",
            "reflow. Two spaces per level of nesting, one member or element to a line,\n",
            "object keys in the order their names sort in, and a number written back exactly\n",
            "as its digits stood.\n",
        ]
        .concat()
    );
}

#[test]
fn the_canonical_form_of_a_canonical_form_is_itself() {
    let rows: [&[u8]; 4] = [
        b"{\"b\":[1,2,{\"z\":null,\"a\":true}],\"a\":\"x\\u001Fy\"}",
        b"  [ ]  ",
        b"{\r\n    \"unit\": \"eV\", \"digits\": -1.5E+03\r\n}",
        b"\"\\ud83d\\udd2c\"",
    ];
    for row in rows {
        let once = canonical(row).expect("a row this form can hold");
        let twice = canonical(&once).expect("a form is a row this form can hold");
        assert_eq!(once, twice);
    }
}

#[test]
fn a_record_holding_what_the_formatter_wrote_is_not_refused() {
    let form = canonical(b"{\"unit\":\"eV\",\"digits\":[1.10,2E3]}").expect("a row this form can hold");
    let listing = tree(&[("register/rows/sb-B/sb-B@1.json", Some(form.as_slice()))]);
    assert_eq!(
        note(every_record_is_in_the_canonical_form(&listing)),
        "1 record(s) read under register/"
    );
}

#[test]
fn the_line_the_form_has_there_is_said_and_none_past_the_end() {
    assert_eq!(text(nth_line("a\r\nb\n", 1)), "a");
    assert_eq!(text(nth_line("a\r\nb\n", 2)), "b");
    assert_eq!(text(nth_line("a\r\nb\n", 3)), "nothing, the text ends above here");
}

#[test]
fn each_fault_says_its_own_sentence_word_for_word() {
    assert_eq!(says(&Fault::NotText), "the bytes are not UTF-8");
    assert_eq!(
        says(&Fault::ByteOrderMark),
        "the file opens with a byte order mark, which the form excludes"
    );
    assert_eq!(
        says(&Fault::Unreadable { line: 12, why: "expected a value" }),
        "line 12: expected a value"
    );
    assert_eq!(
        says(&Fault::TwoMembersWithOneName { line: 3, name: b"unit".to_vec() }),
        "line 3: two members named unit in one object"
    );
}

#[test]
fn a_difference_inside_a_character_is_named_at_its_line() {
    let said = first_difference("a\n\u{e9}", "a\n\u{e0}").expect("the two differ");
    assert_eq!(text(said), "line 2 reads   \u{e9}\n      the form is   \u{e0}");
}

#[test]
fn a_record_whose_first_difference_falls_inside_a_character_is_refused() {
    let found = "{\n  \"\u{e9}\": 1,\n  \"\u{e0}\": 2\n}\n";
    let listing = tree(&[("register/rows/sb-C/sb-C@1.json", Some(found.as_bytes()))]);
    let why = what_it_wrote(every_record_is_in_the_canonical_form(&listing));
    assert!(why.starts_with("1 record(s) are not in the canonical form:\n\n"), "{why}");
    assert!(
        why.contains(
            "  register/rows/sb-C/sb-C@1.json\n      line 2 reads     \"\u{e9}\": 1,\n      the form is     \"\u{e0}\": 2,"
        ),
        "{why}"
    );
}

#[test]
fn an_escape_that_cannot_be_read_leaves_the_reading_where_it_began() {
    let bytes = "\"\\\u{e9}\"".as_bytes();
    let mut scan = Scan { text: bytes, at: 2 };
    assert!(scan.escape().is_err());
    assert_eq!(scan.at, 2);
    match canonical(bytes) {
        Err(Fault::Unreadable { line, why }) => {
            assert_eq!(line, 1);
            assert_eq!(why, "an escape this grammar does not have");
        }
        other => panic!("expected a file that is not JSON, and got {other:?}"),
    }
}
