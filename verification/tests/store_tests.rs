use todo_store::codec::FormatErrorKind;
use todo_store::codec::encode_task_line;
use todo_store::codec::parse_task_line;
use todo_store::store::FormatError;
use todo_store::store::add_task;
use todo_store::store::append_content;
use todo_store::store::empty_store_content;
use todo_store::store::header_string;
use todo_store::store::list;
use todo_store::store::next_id;
use todo_store::store::parse_store;
use todo_store::store::render_store_content;
use todo_store::store::toggle;
use todo_store::task::Task;

fn task(id: u64, description: &str, completed: bool) -> Task {
    Task { id, description: description.to_string(), completed }
}

fn assert_same_tasks(a: &[Task], b: &[Task]) {
    assert_eq!(a.len(), b.len());
    for (x, y) in a.iter().zip(b.iter()) {
        assert_eq!(x.id, y.id);
        assert_eq!(x.description, y.description);
        assert_eq!(x.completed, y.completed);
    }
}

#[test]
fn round_trip_plain_tasks() {
    let tasks = vec![task(1, "Buy milk", false), task(2, "Write report", true)];
    let content = render_store_content(&tasks);
    assert_eq!(content, "id,description,completed\n1,Buy milk,false\n2,Write report,true");
    let back = parse_store(&content).unwrap();
    assert_same_tasks(&tasks, &back);
}

#[test]
fn round_trip_descriptions_needing_quotes() {
    let tasks = vec![
        task(1, "eggs, butter", false),
        task(2, "say \"hi\"", true),
        task(3, "a,\"b\",c", false),
        task(4, "", true),
        task(5, "\"", false),
    ];
    let content = render_store_content(&tasks);
    let back = parse_store(&content).unwrap();
    assert_same_tasks(&tasks, &back);
}

#[test]
fn encode_quotes_field_with_delimiter() {
    let t = task(1, "a,b\"c", false);
    assert_eq!(encode_task_line(&t), "1,\"a,b\"\"c\",false");
}

#[test]
fn encode_leaves_plain_field_bare() {
    let t = task(7, "plain words here", true);
    assert_eq!(encode_task_line(&t), "7,plain words here,true");
}

#[test]
fn parse_line_exact_values() {
    let t = parse_task_line("2,Write report,true").unwrap();
    assert_eq!(t.id, 2);
    assert_eq!(t.description, "Write report");
    assert!(t.completed);
}

#[test]
fn parse_line_quoted_field() {
    let t = parse_task_line("9,\"one, two, three\",false").unwrap();
    assert_eq!(t.id, 9);
    assert_eq!(t.description, "one, two, three");
    assert!(!t.completed);
}

#[test]
fn parse_line_accepts_leading_zeros() {
    let t = parse_task_line("007,bond,false").unwrap();
    assert_eq!(t.id, 7);
}

#[test]
fn next_id_skips_gaps() {
    let tasks = vec![task(1, "a", false), task(3, "b", true), task(4, "c", false)];
    assert_eq!(next_id(&tasks), 5);
}

#[test]
fn next_id_on_empty_store() {
    let tasks: Vec<Task> = Vec::new();
    assert_eq!(next_id(&tasks), 1);
}

#[test]
fn next_id_ignores_order() {
    let tasks = vec![task(4, "a", false), task(1, "b", true), task(3, "c", false)];
    assert_eq!(next_id(&tasks), 5);
}

#[test]
fn toggle_twice_restores_flags() {
    let mut tasks = vec![task(1, "a", false), task(2, "b", true)];
    toggle(&mut tasks, 2).unwrap();
    assert!(!tasks[1].completed);
    toggle(&mut tasks, 2).unwrap();
    assert!(tasks[1].completed);
    assert_eq!(tasks[0].id, 1);
    assert!(!tasks[0].completed);
}

#[test]
fn toggle_missing_id_reports_and_changes_nothing() {
    let mut tasks = vec![task(1, "a", false), task(2, "b", true)];
    let before = render_store_content(&tasks);
    let err = toggle(&mut tasks, 5).unwrap_err();
    assert_eq!(err.id, 5);
    let after = render_store_content(&tasks);
    assert_eq!(before, after);
}

#[test]
fn partition_is_complete_and_ordered() {
    let tasks = vec![
        task(1, "a", false),
        task(2, "b", true),
        task(3, "c", false),
        task(4, "d", true),
        task(5, "e", false),
    ];
    let (incomplete, complete) = list(&tasks);
    assert_eq!(incomplete.len() + complete.len(), tasks.len());
    let inc_ids: Vec<u64> = incomplete.iter().map(|t| t.id).collect();
    let comp_ids: Vec<u64> = complete.iter().map(|t| t.id).collect();
    assert_eq!(inc_ids, vec![1, 3, 5]);
    assert_eq!(comp_ids, vec![2, 4]);
    for t in &incomplete {
        assert!(!t.completed);
    }
    for t in &complete {
        assert!(t.completed);
    }
}

#[test]
fn empty_store_lifecycle() {
    let content = empty_store_content();
    let mut tasks = parse_store(&content).unwrap();
    assert!(tasks.is_empty());
    let (incomplete, complete) = list(&tasks);
    assert!(incomplete.is_empty());
    assert!(complete.is_empty());

    let id = add_task(&mut tasks, "Buy milk".to_string());
    assert_eq!(id, 1);
    assert_eq!(tasks[0].id, 1);
    assert!(!tasks[0].completed);

    let (incomplete, complete) = list(&tasks);
    assert_eq!(incomplete.len(), 1);
    assert!(complete.is_empty());
    assert_eq!(incomplete[0].description, "Buy milk");

    toggle(&mut tasks, 1).unwrap();
    let (incomplete, complete) = list(&tasks);
    assert!(incomplete.is_empty());
    assert_eq!(complete.len(), 1);
    assert_eq!(complete[0].description, "Buy milk");
}

#[test]
fn malformed_two_field_line_names_the_line() {
    let content = "id,description,completed\n1,Buy milk";
    let err = parse_store(content).unwrap_err();
    assert_eq!(err, FormatError { line: 2, kind: FormatErrorKind::WrongFieldCount });
}

#[test]
fn four_field_line_is_wrong_field_count() {
    let err = parse_store("id,description,completed\n1,a,true,extra").unwrap_err();
    assert_eq!(err, FormatError { line: 2, kind: FormatErrorKind::WrongFieldCount });
}

#[test]
fn non_numeric_id_is_bad_id() {
    let err = parse_store("id,description,completed\nx,a,true").unwrap_err();
    assert_eq!(err, FormatError { line: 2, kind: FormatErrorKind::BadId });
}

#[test]
fn oversized_id_is_bad_id() {
    let err = parse_store("id,description,completed\n18446744073709551616,a,true").unwrap_err();
    assert_eq!(err, FormatError { line: 2, kind: FormatErrorKind::BadId });
}

#[test]
fn largest_id_still_parses() {
    let line = format!("18446744073709551615,a,true");
    let t = parse_task_line(&line).unwrap();
    assert_eq!(t.id, u64::MAX);
}

#[test]
fn non_boolean_token_is_bad_completed() {
    let err = parse_store("id,description,completed\n1,a,maybe").unwrap_err();
    assert_eq!(err, FormatError { line: 2, kind: FormatErrorKind::BadCompleted });
}

#[test]
fn missing_header_is_bad_header() {
    let err = parse_store("nonsense").unwrap_err();
    assert_eq!(err, FormatError { line: 1, kind: FormatErrorKind::BadHeader });
}

#[test]
fn error_line_number_counts_later_lines() {
    let content = "id,description,completed\n1,a,true\n2,b,false\n3,c";
    let err = parse_store(content).unwrap_err();
    assert_eq!(err, FormatError { line: 4, kind: FormatErrorKind::WrongFieldCount });
}

#[test]
fn trailing_newline_is_rejected_as_empty_record() {
    let err = parse_store("id,description,completed\n").unwrap_err();
    assert_eq!(err, FormatError { line: 2, kind: FormatErrorKind::WrongFieldCount });
}

#[test]
fn unterminated_quote_is_wrong_field_count() {
    let err = parse_store("id,description,completed\n1,\"abc,true").unwrap_err();
    assert_eq!(err, FormatError { line: 2, kind: FormatErrorKind::WrongFieldCount });
}

#[test]
fn text_after_closing_quote_is_wrong_field_count() {
    let err = parse_store("id,description,completed\n1,\"a\"x,true").unwrap_err();
    assert_eq!(err, FormatError { line: 2, kind: FormatErrorKind::WrongFieldCount });
}

#[test]
fn max_hint_line_is_tolerated() {
    let content = "MAX,7\nid,description,completed\n2,Write report,true";
    let tasks = parse_store(content).unwrap();
    assert_eq!(tasks.len(), 1);
    assert_eq!(tasks[0].id, 2);
    assert!(tasks[0].completed);
}

#[test]
fn max_hint_error_lines_shift_by_one() {
    let content = "MAX,7\nid,description,completed\n1,a";
    let err = parse_store(content).unwrap_err();
    assert_eq!(err, FormatError { line: 3, kind: FormatErrorKind::WrongFieldCount });
}

#[test]
fn malformed_max_hint_is_bad_header() {
    let err = parse_store("MAX,x\nid,description,completed").unwrap_err();
    assert_eq!(err, FormatError { line: 1, kind: FormatErrorKind::BadHeader });
}

#[test]
fn append_extends_without_rewriting() {
    let tasks = vec![task(1, "a", false)];
    let content = render_store_content(&tasks);
    let new_task = task(2, "b, with comma", false);
    let appended = append_content(&content, &new_task);
    assert!(appended.starts_with(&content));
    let back = parse_store(&appended).unwrap();
    assert_same_tasks(&back, &[task(1, "a", false), task(2, "b, with comma", false)]);
}

#[test]
fn header_matches_empty_store() {
    assert_eq!(header_string(), "id,description,completed");
    assert_eq!(empty_store_content(), "id,description,completed");
}

#[test]
fn display_line_formats_task() {
    let t = task(3, "Buy milk", false);
    assert_eq!(t.display_line(), "Task 3: Buy milk");
}

#[test]
fn unicode_description_round_trips() {
    let tasks = vec![task(1, "héllo wörld ✓", false)];
    let content = render_store_content(&tasks);
    let back = parse_store(&content).unwrap();
    assert_same_tasks(&tasks, &back);
}
