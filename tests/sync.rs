use deck_sync::parse::{parse_lines, read_line, LineError, LineRead, Rejection};
use deck_sync::reconcile::{classify, reconcile, MatchOutcome, ReconcileError};
use deck_sync::record::{deck_query, LocalRecord, RemoteRecord};
use deck_sync::rewrite::{line_with_identifier, patch_identifier, write_back, RewriteError};
use deck_sync::text::{decimal_chars, find, find_only, parse_identifier, trimmed};

fn chars(s: &str) -> Vec<char> {
    s.chars().collect()
}

fn text(v: &[char]) -> String {
    v.iter().collect()
}

fn lines(ls: &[&str]) -> Vec<Vec<char>> {
    ls.iter().map(|l| chars(l)).collect()
}

fn texts(ls: &[Vec<char>]) -> Vec<String> {
    ls.iter().map(|l| text(l)).collect()
}

fn remote(id: i64, front: &str, back: &str) -> RemoteRecord {
    RemoteRecord::new(id, chars(front), chars(back))
}

fn local(front: &str, back: &str, id: i64) -> LocalRecord {
    LocalRecord::new(chars(front), chars(back), id)
}

#[test]
fn example_file_creates_one_note_and_appends_its_id() {
    let mut file = lines(&["cat::gatto  #id:501", "dog::perro"]);
    let report = parse_lines(&file);
    assert!(report.rejected.is_empty());
    assert_eq!(report.records.len(), 2);
    let snapshot = vec![remote(501, "cat", "gatto")];
    let mut plan = reconcile(&report.records, &snapshot).unwrap();
    assert!(plan.to_update.is_empty());
    assert_eq!(plan.to_create, vec![1]);
    assert_eq!(text(&plan.records[1].front), "dog");
    assert_eq!(plan.outcomes, vec![MatchOutcome::Unchanged, MatchOutcome::New]);
    plan.assign_created(&vec![777]).unwrap();
    let missing = write_back(&mut file, &report.records, &plan.records);
    assert!(missing.is_empty());
    assert_eq!(texts(&file), vec!["cat::gatto  #id:501", "dog::perro  #id:777"]);
}

#[test]
fn second_run_on_patched_file_changes_nothing() {
    let mut file = lines(&["# words", "cat::gatto  #id:501", "dog::perro  #id:777"]);
    let before = texts(&file);
    let snapshot = vec![remote(777, "dog", "perro"), remote(501, "cat", "gatto")];
    let report = parse_lines(&file);
    let mut plan = reconcile(&report.records, &snapshot).unwrap();
    assert!(plan.to_create.is_empty());
    assert!(plan.to_update.is_empty());
    plan.assign_created(&vec![]).unwrap();
    let missing = write_back(&mut file, &report.records, &plan.records);
    assert!(missing.is_empty());
    assert_eq!(texts(&file), before);
}

#[test]
fn created_record_is_unchanged_on_the_next_run() {
    let mut file = lines(&["sun::sole"]);
    let report = parse_lines(&file);
    let mut plan = reconcile(&report.records, &vec![]).unwrap();
    assert_eq!(plan.to_create, vec![0]);
    plan.assign_created(&vec![42]).unwrap();
    write_back(&mut file, &report.records, &plan.records);
    let again = parse_lines(&file);
    assert_eq!(again.records[0].identifier, 42);
    let snapshot = vec![remote(42, "sun", "sole")];
    let plan2 = reconcile(&again.records, &snapshot).unwrap();
    assert_eq!(plan2.outcomes, vec![MatchOutcome::Unchanged]);
    assert_eq!(plan2.records[0].identifier, 42);
    assert!(plan2.to_create.is_empty());
}

#[test]
fn duplicate_identifier_keeps_the_first_line() {
    let file = lines(&["a::b  #id:5", "c::d  #id:5"]);
    let report = parse_lines(&file);
    assert_eq!(report.records.len(), 1);
    assert_eq!(text(&report.records[0].front), "a");
    assert_eq!(
        report.rejected,
        vec![Rejection { line: 2, error: LineError::DuplicateIdentifier }]
    );
}

#[test]
fn record_without_marker_adopts_remote_identifier() {
    let mut file = lines(&["cat::gatto"]);
    let report = parse_lines(&file);
    let snapshot = vec![remote(9, "cat", " gatto ")];
    let plan = reconcile(&report.records, &snapshot).unwrap();
    assert_eq!(plan.outcomes, vec![MatchOutcome::Unchanged]);
    assert_eq!(plan.records[0].identifier, 9);
    assert!(plan.to_create.is_empty());
    write_back(&mut file, &report.records, &plan.records);
    assert_eq!(texts(&file), vec!["cat::gatto  #id:9"]);
}

#[test]
fn changed_back_is_an_update() {
    let file = lines(&["cat::micio  #id:501"]);
    let report = parse_lines(&file);
    let snapshot = vec![remote(501, "cat", "gatto")];
    let plan = reconcile(&report.records, &snapshot).unwrap();
    assert_eq!(plan.outcomes, vec![MatchOutcome::UpdatedRemotely]);
    assert_eq!(plan.to_update, vec![0]);
    assert!(plan.to_create.is_empty());
}

#[test]
fn unknown_identifier_with_other_content_is_a_conflict() {
    let report = parse_lines(&lines(&["cat::gatto  #id:8"]));
    let plan = reconcile(&report.records, &vec![remote(3, "dog", "cane")]).unwrap();
    assert_eq!(plan.outcomes, vec![MatchOutcome::Conflict]);
    assert!(plan.to_create.is_empty());
    assert!(plan.to_update.is_empty());
}

#[test]
fn repeated_update_is_fatal() {
    let records = vec![local("cat", "gatto", 4)];
    let snapshot = vec![remote(4, "x", "y"), remote(4, "z", "w")];
    assert_eq!(
        reconcile(&records, &snapshot).err(),
        Some(ReconcileError::RepeatedUpdate)
    );
    assert_eq!(
        classify(&records[0], &snapshot).err(),
        Some(ReconcileError::RepeatedUpdate)
    );
}

#[test]
fn create_response_of_wrong_length_is_fatal() {
    let report = parse_lines(&lines(&["a::b", "c::d"]));
    let mut plan = reconcile(&report.records, &vec![]).unwrap();
    assert_eq!(plan.to_create, vec![0, 1]);
    assert_eq!(
        plan.assign_created(&vec![10]),
        Err(ReconcileError::CreateCountMismatch)
    );
    assert_eq!(plan.records[0].identifier, 0);
    assert_eq!(
        plan.assign_created(&vec![10, 11, 12]),
        Err(ReconcileError::CreateCountMismatch)
    );
    assert_eq!(plan.records[1].identifier, 0);
    assert_eq!(plan.assign_created(&vec![10, 11]), Ok(()));
    assert_eq!(plan.records[0].identifier, 10);
    assert_eq!(plan.records[1].identifier, 11);
}

#[test]
fn line_errors_are_reported_and_reading_goes_on() {
    let file = lines(&[
        "just a comment",
        "a::b  #id:x1",
        "a::b  #id:0",
        "a::b::c",
        "  ::b",
        "ok::fine",
        "x #id:3",
    ]);
    let report = parse_lines(&file);
    assert_eq!(report.records.len(), 1);
    assert_eq!(text(&report.records[0].back), "fine");
    assert_eq!(
        report.rejected,
        vec![
            Rejection { line: 2, error: LineError::MalformedIdentifier },
            Rejection { line: 3, error: LineError::MalformedIdentifier },
            Rejection { line: 4, error: LineError::DelimiterCount },
            Rejection { line: 5, error: LineError::EmptyField },
        ]
    );
}

#[test]
fn line_without_delimiter_is_free_text() {
    assert!(matches!(read_line(&chars("hello #id:4")), LineRead::Free));
    assert!(matches!(
        read_line(&chars("a #id:4::")),
        LineRead::Bad(LineError::MalformedIdentifier)
    ));
    assert!(matches!(
        read_line(&chars("a b #id:4 ::")),
        LineRead::Bad(LineError::MalformedIdentifier)
    ));
    match read_line(&chars("  big ::  grande  #id:12")) {
        LineRead::Entry(r) => {
            assert_eq!(text(&r.front), "big");
            assert_eq!(text(&r.back), "grande");
            assert_eq!(r.identifier, 12);
        }
        _ => panic!("expected a record"),
    }
}

#[test]
fn identifier_must_be_positive_and_fit() {
    assert_eq!(parse_identifier(&chars("9223372036854775807")), Some(i64::MAX));
    assert_eq!(parse_identifier(&chars("9223372036854775808")), None);
    assert_eq!(parse_identifier(&chars("0")), None);
    assert_eq!(parse_identifier(&chars("")), None);
    assert_eq!(parse_identifier(&chars("-5")), None);
    assert_eq!(parse_identifier(&chars("007")), Some(7));
}

#[test]
fn patch_matches_whole_identifier_only() {
    let mut file = lines(&["a::b  #id:120", "c::d  #id:12"]);
    let r = patch_identifier(&mut file, &local("c", "d", 12), 13);
    assert_eq!(r, Ok(1));
    assert_eq!(texts(&file), vec!["a::b  #id:120", "c::d  #id:13"]);
}

#[test]
fn patch_reports_missing_line_and_bad_identifier() {
    let mut file = lines(&["a::b"]);
    assert_eq!(
        patch_identifier(&mut file, &local("x", "y", 0), 5),
        Err(RewriteError::LineNotFound)
    );
    assert_eq!(
        patch_identifier(&mut file, &local("a", "b", 0), 0),
        Err(RewriteError::InvalidIdentifier)
    );
    assert_eq!(texts(&file), vec!["a::b"]);
}

#[test]
fn equal_new_lines_each_get_their_own_identifier() {
    let mut file = lines(&["a::b", "a::b"]);
    let report = parse_lines(&file);
    let mut plan = reconcile(&report.records, &vec![]).unwrap();
    plan.assign_created(&vec![1, 2]).unwrap();
    write_back(&mut file, &report.records, &plan.records);
    assert_eq!(texts(&file), vec!["a::b  #id:1", "a::b  #id:2"]);
}

#[test]
fn write_back_lists_records_whose_line_is_gone() {
    let mut file = lines(&["q::r"]);
    let before = vec![local("x", "y", 0)];
    let after = vec![local("x", "y", 5)];
    assert_eq!(write_back(&mut file, &before, &after), vec![0]);
    assert_eq!(texts(&file), vec!["q::r"]);
}

#[test]
fn rewritten_line_replaces_old_suffix() {
    assert_eq!(text(&line_with_identifier(&chars("a::b #id:5"), 60)), "a::b  #id:60");
    assert_eq!(text(&line_with_identifier(&chars("a::b   "), 7)), "a::b     #id:7");
}

#[test]
fn marker_free_line_keeps_its_text() {
    let mut file = lines(&["dog::perro "]);
    assert_eq!(patch_identifier(&mut file, &local("dog", "perro", 0), 9), Ok(0));
    assert_eq!(texts(&file), vec!["dog::perro   #id:9"]);
    let again = parse_lines(&file);
    assert_eq!(again.records[0].identifier, 9);
    assert_eq!(text(&again.records[0].back), "perro");
}

#[test]
fn identifier_token_finds_line_whatever_its_terms() {
    let mut file = lines(&["x::y  #id:12 note", "c::d  #id:120"]);
    assert_eq!(patch_identifier(&mut file, &local("c", "d", 12), 13), Ok(0));
    assert_eq!(texts(&file), vec!["x::y  #id:13", "c::d  #id:120"]);
}

#[test]
fn padded_number_is_not_the_identifier_token() {
    let mut file = lines(&["c::d  #id:0012"]);
    assert_eq!(
        patch_identifier(&mut file, &local("c", "d", 12), 13),
        Err(RewriteError::LineNotFound)
    );
    assert_eq!(texts(&file), vec!["c::d  #id:0012"]);
}

#[test]
fn same_identifier_again_keeps_the_line() {
    let mut file = lines(&["a::b  #id:5"]);
    assert_eq!(patch_identifier(&mut file, &local("a", "b", 5), 5), Ok(0));
    assert_eq!(texts(&file), vec!["a::b  #id:5"]);
}

#[test]
fn text_helpers() {
    assert_eq!(text(&trimmed(&chars("\t a b \u{3000}"))), "a b");
    assert_eq!(text(&decimal_chars(0)), "0");
    assert_eq!(text(&decimal_chars(90210)), "90210");
    assert_eq!(find(&chars("ab::c::"), &chars("::")), Some(2));
    assert_eq!(find_only(&chars("ab::c::"), &chars("::")), None);
    assert_eq!(find_only(&chars("ab::c"), &chars("::")), Some(2));
    assert_eq!(text(&deck_query(&chars("spanish"))), "deck:spanish");
}
