use log_agg::aggregate::{AggregateState, Aggregator};
use log_agg::filter::FilterSpec;
use log_agg::scan::{
    check_path, scan_bytes, scan_content, scan_file, scan_lines, scan_text, FileError,
    PartialResult,
};
use log_agg::severity::{Severity, SeverityCounts};
use log_agg::text::decode;

const APP_LOG: &str = "\
2024-01-01 INFO: service started
2024-01-01 ERROR: Connection failed: too many connections
2024-01-01 Error: Disk full: cannot write to transaction log
2024-01-01 warning: memory usage high
2024-01-01 info: heartbeat
2024-01-01 error: connection failed: too many connections
plain line without a level
";

const API_LOG: &str = "INFO request served\r\nWARN slow request\r\nERROR: Database connection lost\r\nERROR\r\n";

const DB_LOG: &str = "error - Connection failed: too many connections\ninfo vacuum done\ninfo checkpoint\nERROR: disk full: cannot write to transaction log";

fn counts_of(p: &PartialResult) -> (usize, usize, usize) {
    (p.counts.errors, p.counts.warnings, p.counts.infos)
}

fn state_counts(s: &AggregateState) -> (usize, usize, usize) {
    (s.count(Severity::Error), s.count(Severity::Warning), s.count(Severity::Info))
}

#[test]
fn scan_counts_lines_by_severity() {
    let p = scan_text(APP_LOG, &FilterSpec::all());
    assert_eq!(counts_of(&p), (3, 1, 2));
    let q = scan_text(API_LOG, &FilterSpec::all());
    assert_eq!(counts_of(&q), (2, 1, 1));
    let r = scan_text(DB_LOG, &FilterSpec::all());
    assert_eq!(counts_of(&r), (2, 0, 2));
}

#[test]
fn scan_counts_error_messages() {
    let p = scan_text(APP_LOG, &FilterSpec::all());
    assert_eq!(p.errors.count_of("Connection failed: too many connections"), 2);
    assert_eq!(p.errors.count_of("Disk full: cannot write to transaction log"), 1);
    assert_eq!(p.errors.entries().len(), 2);
    let spellings: Vec<String> = p.errors.entries().iter().map(|e| e.text().clone()).collect();
    assert!(spellings.contains(&"Connection failed: too many connections".to_string()));
    assert!(spellings.contains(&"Disk full: cannot write to transaction log".to_string()));
}

#[test]
fn error_line_without_message_counts_as_error_only() {
    let p = scan_text("something error\nerror:\nERROR - ", &FilterSpec::all());
    assert_eq!(counts_of(&p), (3, 0, 0));
    assert!(p.errors.is_empty());
    assert_eq!(p.retained.len(), 3);
}

#[test]
fn scan_without_filter_keeps_all_lines() {
    let p = scan_text(APP_LOG, &FilterSpec::all());
    let expected: Vec<String> = APP_LOG.lines().map(|l| l.to_string()).collect();
    assert_eq!(p.retained, expected);
}

#[test]
fn filter_and_classification_do_not_depend_on_each_other() {
    let p = scan_text(APP_LOG, &FilterSpec::keyword("HEARTBEAT"));
    assert_eq!(counts_of(&p), (3, 1, 2));
    assert_eq!(p.errors.count_of("connection failed: too many connections"), 2);
    assert_eq!(p.retained, vec!["2024-01-01 info: heartbeat".to_string()]);
    let q = scan_text(APP_LOG, &FilterSpec::keyword("plain"));
    assert_eq!(counts_of(&q), (3, 1, 2));
    assert_eq!(q.retained, vec!["plain line without a level".to_string()]);
    let none = scan_text(APP_LOG, &FilterSpec::keyword("no such word"));
    assert_eq!(counts_of(&none), (3, 1, 2));
    assert!(none.retained.is_empty());
}

#[test]
fn scan_of_empty_text_is_empty() {
    let p = scan_text("", &FilterSpec::all());
    assert_eq!(counts_of(&p), (0, 0, 0));
    assert!(p.errors.is_empty());
    assert!(p.retained.is_empty());
    let e = PartialResult::empty();
    assert_eq!(counts_of(&e), (0, 0, 0));
    assert!(e.errors.is_empty());
    assert!(e.retained.is_empty());
}

#[test]
fn scan_lines_is_scan_text_after_splitting() {
    let lines: Vec<String> = API_LOG.lines().map(|l| l.to_string()).collect();
    let filter = FilterSpec::keyword("error");
    let p = scan_lines(&lines, &filter);
    let q = scan_text(API_LOG, &filter);
    assert_eq!(counts_of(&p), counts_of(&q));
    assert_eq!(p.retained, q.retained);
    assert_eq!(p.retained, vec!["ERROR: Database connection lost".to_string(), "ERROR".to_string()]);
    assert_eq!(p.errors.count_of("database connection lost"), 1);
}

#[test]
fn bytes_that_are_text_are_scanned() {
    let p = scan_bytes(APP_LOG.as_bytes(), &FilterSpec::all()).unwrap();
    assert_eq!(counts_of(&p), (3, 1, 2));
    let q = scan_bytes("Fehler: ERROR: Übergröße\n".as_bytes(), &FilterSpec::all()).unwrap();
    assert_eq!(q.errors.count_of("übergröße"), 1);
    let empty = scan_bytes(&[], &FilterSpec::all()).unwrap();
    assert_eq!(counts_of(&empty), (0, 0, 0));
}

#[test]
fn bytes_that_are_no_text_give_a_read_error() {
    let filter = FilterSpec::all();
    for bytes in [&[0xffu8, 0xfe][..], &[b'e', b'r', 0xc3][..], &[0xed, 0xa0, 0x80][..], &[0xc0, 0x80][..]] {
        assert_eq!(scan_bytes(bytes, &filter).err(), Some(FileError::ReadError));
        assert!(decode(bytes).is_none());
    }
    assert_eq!(decode("päth".as_bytes()), Some("päth"));
}

#[test]
fn missing_path_gives_not_found() {
    assert_eq!(check_path(false, false), Err(FileError::NotFound));
    assert_eq!(check_path(false, true), Err(FileError::NotFound));
    let r = scan_file(false, false, None, &FilterSpec::all());
    assert_eq!(r.err(), Some(FileError::NotFound));
    let r = scan_file(false, true, Some(APP_LOG.as_bytes()), &FilterSpec::all());
    assert_eq!(r.err(), Some(FileError::NotFound));
}

#[test]
fn directory_gives_not_a_file() {
    assert_eq!(check_path(true, false), Err(FileError::NotAFile));
    let r = scan_file(true, false, None, &FilterSpec::all());
    assert_eq!(r.err(), Some(FileError::NotAFile));
}

#[test]
fn failed_read_gives_read_error() {
    assert_eq!(check_path(true, true), Ok(()));
    assert_eq!(scan_content(None, &FilterSpec::all()).err(), Some(FileError::ReadError));
    assert_eq!(scan_file(true, true, None, &FilterSpec::all()).err(), Some(FileError::ReadError));
    assert_eq!(
        scan_file(true, true, Some(&[0x80]), &FilterSpec::all()).err(),
        Some(FileError::ReadError)
    );
}

#[test]
fn regular_file_is_scanned() {
    let r = scan_file(true, true, Some(DB_LOG.as_bytes()), &FilterSpec::all()).unwrap();
    assert_eq!(counts_of(&r), (2, 0, 2));
    let c = scan_content(Some(DB_LOG.as_bytes()), &FilterSpec::all()).unwrap();
    assert_eq!(counts_of(&c), (2, 0, 2));
}

#[test]
fn causes_are_worded() {
    assert_eq!(FileError::NotFound.cause(), "file does not exist");
    assert_eq!(FileError::NotAFile.cause(), "not a regular file");
    assert_eq!(FileError::ReadError.cause(), "file could not be read as text");
}

#[test]
fn severity_counts_add_up() {
    let mut counts = SeverityCounts::new();
    assert_eq!((counts.errors, counts.warnings, counts.infos), (0, 0, 0));
    counts.bump(Severity::Error);
    counts.bump(Severity::Info);
    counts.bump(Severity::Info);
    assert_eq!(counts.get(Severity::Error), 1);
    assert_eq!(counts.get(Severity::Warning), 0);
    assert_eq!(counts.get(Severity::Info), 2);
    let other = SeverityCounts { errors: 10, warnings: 20, infos: 30 };
    assert!(counts.can_add(&other));
    counts.add(&other);
    assert_eq!(counts, SeverityCounts { errors: 11, warnings: 20, infos: 32 });
    let full = SeverityCounts { errors: 0, warnings: usize::MAX, infos: 0 };
    assert!(counts.can_add(&SeverityCounts { errors: 5, warnings: usize::MAX - 20, infos: 1 }));
    assert!(!counts.can_add(&full));
    assert!(!full.can_add(&counts));
    assert!(full.can_add(&SeverityCounts { errors: 1, warnings: 0, infos: 1 }));
}

#[test]
fn severities_have_their_names() {
    assert_eq!(Severity::Error.label(), "Errors");
    assert_eq!(Severity::Warning.label(), "Warnings");
    assert_eq!(Severity::Info.label(), "Info");
}

#[test]
fn new_state_holds_nothing() {
    let state = AggregateState::new();
    assert_eq!(state_counts(&state), (0, 0, 0));
    assert!(state.errors().is_empty());
    assert!(state.content().is_empty());
}

#[test]
fn merge_adds_counts_and_appends_content() {
    let filter = FilterSpec::keyword("error");
    let mut state = AggregateState::new();
    let first = scan_text(APP_LOG, &filter);
    assert!(state.can_merge(&first));
    state.merge(first);
    assert_eq!(state_counts(&state), (3, 1, 2));
    state.merge(scan_text(API_LOG, &filter));
    assert_eq!(state_counts(&state), (5, 2, 3));
    assert_eq!(state.errors().count_of("connection failed: too many connections"), 2);
    assert_eq!(state.errors().count_of("database connection lost"), 1);
    let expected: Vec<String> = APP_LOG
        .lines()
        .chain(API_LOG.lines())
        .filter(|l| l.to_lowercase().contains("error"))
        .map(|l| l.to_string())
        .collect();
    assert_eq!(state.content(), &expected);
    assert_eq!(expected.len(), 5);
}

#[test]
fn merge_of_nothing_changes_nothing() {
    let mut state = AggregateState::new();
    state.merge(scan_text(DB_LOG, &FilterSpec::all()));
    state.merge_nothing();
    state.merge(PartialResult::empty());
    assert_eq!(state_counts(&state), (2, 0, 2));
    assert_eq!(state.content().len(), 4);
    assert_eq!(state.errors().entries().len(), 2);
}

#[test]
fn counts_do_not_depend_on_the_order_of_merges() {
    let texts = [APP_LOG, API_LOG, DB_LOG];
    let orders = [[0, 1, 2], [0, 2, 1], [1, 0, 2], [1, 2, 0], [2, 0, 1], [2, 1, 0]];
    let mut seen: Vec<((usize, usize, usize), Vec<(Vec<char>, usize)>, Vec<String>)> = Vec::new();
    for order in orders {
        let mut state = AggregateState::new();
        for i in order {
            state.merge(scan_text(texts[i], &FilterSpec::keyword("o")));
        }
        let mut keys: Vec<(Vec<char>, usize)> =
            state.errors().entries().iter().map(|e| (e.key().clone(), e.count())).collect();
        keys.sort();
        let mut content = state.content().clone();
        content.sort();
        seen.push((state_counts(&state), keys, content));
    }
    for other in &seen[1..] {
        assert_eq!(other, &seen[0]);
    }
    assert_eq!(seen[0].0, (7, 2, 5));
    assert_eq!(seen[0].1.len(), 3);
}

#[test]
fn state_tells_counts_that_do_not_fit() {
    let mut state = AggregateState::new();
    let mut huge = PartialResult::empty();
    huge.counts.warnings = usize::MAX;
    assert!(state.can_merge(&huge));
    state.merge(huge);
    let one = scan_text("warn", &FilterSpec::all());
    assert!(!state.can_merge(&one));
    let other = scan_text("error: x\ninfo", &FilterSpec::all());
    assert!(state.can_merge(&other));
}

fn three_files() -> Vec<String> {
    let mut first = String::new();
    for i in 0..7 {
        first.push_str(&format!("{i} ERROR: Connection failed: too many connections\n"));
    }
    for i in 0..3 {
        first.push_str(&format!("{i} WARN queue is long\n"));
    }
    for i in 0..6 {
        first.push_str(&format!("{i} info tick\n"));
    }
    let mut second = String::new();
    for i in 0..6 {
        second.push_str(&format!("{i} Error - Disk full: cannot write to transaction log\r\n"));
    }
    for i in 0..4 {
        second.push_str(&format!("{i} Warning: retry\r\n"));
    }
    for i in 0..6 {
        second.push_str(&format!("{i} INFO tock\r\n"));
    }
    let mut third = String::new();
    for i in 0..5 {
        third.push_str(&format!("{i} error: Database connection lost\n"));
    }
    third.push_str("WARNING last\n");
    for i in 0..7 {
        third.push_str(&format!("{i} Info: done\n"));
    }
    third.push_str("no level here");
    vec![first, second, third]
}

#[test]
fn three_files_end_to_end() {
    let files = three_files();
    for order in [[0, 1, 2], [2, 1, 0], [1, 2, 0]] {
        let mut aggregator = Aggregator::new(3);
        for i in order {
            let outcome = scan_file(true, true, Some(files[i].as_bytes()), &FilterSpec::all());
            assert!(aggregator.can_accept(&outcome));
            aggregator.accept(outcome);
        }
        assert!(aggregator.all_reported());
        let state = aggregator.finish().unwrap();
        assert_eq!(state_counts(&state), (18, 8, 19));
        assert_eq!(state.errors().count_of("connection failed: too many connections"), 7);
        assert_eq!(state.errors().count_of("disk full: cannot write to transaction log"), 6);
        assert_eq!(state.errors().count_of("database connection lost"), 5);
        assert_eq!(state.content().len(), 46);
    }
}

#[test]
fn missing_file_contributes_nothing() {
    let filter = FilterSpec::all();
    let mut aggregator = Aggregator::new(3);
    assert_eq!(aggregator.pending(), 3);
    aggregator.accept(scan_file(true, true, Some(APP_LOG.as_bytes()), &filter));
    let missing = scan_file(false, false, None, &filter);
    assert_eq!(missing.as_ref().err(), Some(&FileError::NotFound));
    assert!(aggregator.can_accept(&missing));
    aggregator.accept(missing);
    assert_eq!(aggregator.pending(), 1);
    assert_eq!(aggregator.failures(), 1);
    assert!(!aggregator.all_reported());
    aggregator.accept(scan_file(true, true, Some(DB_LOG.as_bytes()), &filter));
    assert_eq!(aggregator.pending(), 0);
    let state = aggregator.finish().unwrap();
    assert_eq!(state_counts(&state), (5, 1, 4));
    assert_eq!(state.errors().count_of("Connection failed: too many connections"), 3);
    assert_eq!(state.content().len(), 11);
}

#[test]
fn aggregate_is_handed_out_when_all_have_reported() {
    let aggregator = Aggregator::new(1);
    assert!(!aggregator.all_reported());
    assert!(aggregator.finish().is_none());
    let mut aggregator = Aggregator::new(2);
    aggregator.accept(Err(FileError::NotAFile));
    assert!(!aggregator.all_reported());
    aggregator.accept(Err(FileError::ReadError));
    assert!(aggregator.all_reported());
    assert_eq!(aggregator.failures(), 2);
    assert!(!aggregator.can_accept(&Err(FileError::NotFound)));
    assert!(!aggregator.can_accept(&Ok(PartialResult::empty())));
    let state = aggregator.finish().unwrap();
    assert_eq!(state_counts(&state), (0, 0, 0));
    let none = Aggregator::new(0);
    assert!(none.all_reported());
    assert!(none.finish().is_some());
}

#[test]
fn aggregator_tells_counts_that_do_not_fit() {
    let mut aggregator = Aggregator::new(3);
    let mut huge = PartialResult::empty();
    huge.counts.errors = usize::MAX;
    aggregator.accept(Ok(huge));
    assert!(!aggregator.can_accept(&Ok(scan_text("error", &FilterSpec::all()))));
    assert!(aggregator.can_accept(&Ok(scan_text("info", &FilterSpec::all()))));
    assert!(aggregator.can_accept(&Err(FileError::NotFound)));
}
