use log_agg::aggregate::AggregateState;
use log_agg::errors::ErrorTable;
use log_agg::filter::FilterSpec;
use log_agg::ranking::ranking;
use log_agg::report::{
    render_count, render_error, render_files, render_report, render_severity, severity_summary,
    top_error_lines, TOP_ERRORS,
};
use log_agg::scan::scan_text;
use log_agg::severity::Severity;

fn strings(items: &[&str]) -> Vec<String> {
    items.iter().map(|s| s.to_string()).collect()
}

fn sample_state(filter: &FilterSpec) -> AggregateState {
    let mut state = AggregateState::new();
    state.merge(scan_text(
        "ERROR: Connection failed\nerror: connection failed\nWARN slow\nINFO up\n",
        filter,
    ));
    state.merge(scan_text("Error - Disk full\ninfo down\nERROR: CONNECTION FAILED", filter));
    state
}

#[test]
fn numbers_are_written_in_decimal() {
    assert_eq!(render_count(0), "0");
    assert_eq!(render_count(7), "7");
    assert_eq!(render_count(10), "10");
    assert_eq!(render_count(99), "99");
    assert_eq!(render_count(100), "100");
    assert_eq!(render_count(12345), "12345");
    assert_eq!(render_count(usize::MAX), usize::MAX.to_string());
    for n in 0..2000usize {
        assert_eq!(render_count(n), n.to_string());
    }
}

#[test]
fn severity_line_names_the_severity() {
    assert_eq!(render_severity(Severity::Error, 18), "Errors: 18");
    assert_eq!(render_severity(Severity::Warning, 8), "Warnings: 8");
    assert_eq!(render_severity(Severity::Info, 19), "Info: 19");
    assert_eq!(render_severity(Severity::Info, 0), "Info: 0");
}

#[test]
fn error_line_quotes_the_message() {
    let mut table = ErrorTable::new();
    for _ in 0..3 {
        table.record("Connection failed: too many connections");
    }
    table.record("He said \"no\"");
    let entries = ranking(&table);
    assert_eq!(
        render_error(&entries[0]),
        "\"Connection failed: too many connections\" (3 occurrences)"
    );
    assert_eq!(render_error(&entries[1]), "\"He said \"no\"\" (1 occurrences)");
}

#[test]
fn files_are_listed_in_the_order_given() {
    assert_eq!(
        render_files(&strings(&["app.log", "api.log", "database.log"])),
        "Files processed: app.log, api.log, database.log"
    );
    assert_eq!(render_files(&strings(&["only.log"])), "Files processed: only.log");
    assert_eq!(render_files(&strings(&[])), "Files processed: ");
    assert_eq!(render_files(&strings(&["b", "a", "b"])), "Files processed: b, a, b");
}

#[test]
fn summary_lists_every_severity_in_fixed_order() {
    let state = sample_state(&FilterSpec::all());
    assert_eq!(severity_summary(&state), strings(&["Errors: 4", "Warnings: 1", "Info: 2"]));
    let empty = AggregateState::new();
    assert_eq!(severity_summary(&empty), strings(&["Errors: 0", "Warnings: 0", "Info: 0"]));
}

#[test]
fn top_error_lines_are_ranked() {
    let state = sample_state(&FilterSpec::all());
    assert_eq!(
        top_error_lines(state.errors()),
        strings(&["\"Connection failed\" (3 occurrences)", "\"Disk full\" (1 occurrences)"])
    );
}

#[test]
fn at_most_five_errors_are_listed() {
    assert_eq!(TOP_ERRORS, 5);
    let mut table = ErrorTable::new();
    for (message, count) in [("A", 3), ("B", 2), ("C", 2), ("D", 1), ("E", 1), ("F", 1), ("G", 1)] {
        for _ in 0..count {
            table.record(message);
        }
    }
    assert_eq!(
        top_error_lines(&table),
        strings(&[
            "\"A\" (3 occurrences)",
            "\"B\" (2 occurrences)",
            "\"C\" (2 occurrences)",
            "\"D\" (1 occurrences)",
            "\"E\" (1 occurrences)",
        ])
    );
}

#[test]
fn report_without_content() {
    let state = sample_state(&FilterSpec::all());
    let lines = render_report(&state, &strings(&["one.log", "two.log"]), false);
    assert_eq!(
        lines,
        strings(&[
            "Errors: 4",
            "Warnings: 1",
            "Info: 2",
            "Top errors:",
            "\"Connection failed\" (3 occurrences)",
            "\"Disk full\" (1 occurrences)",
            "Files processed: one.log, two.log",
        ])
    );
}

#[test]
fn report_with_content() {
    let state = sample_state(&FilterSpec::keyword("connection"));
    let lines = render_report(&state, &strings(&["one.log", "two.log"]), true);
    assert_eq!(
        lines,
        strings(&[
            "Errors: 4",
            "Warnings: 1",
            "Info: 2",
            "Top errors:",
            "\"Connection failed\" (3 occurrences)",
            "\"Disk full\" (1 occurrences)",
            "ERROR: Connection failed",
            "error: connection failed",
            "ERROR: CONNECTION FAILED",
            "Files processed: one.log, two.log",
        ])
    );
}

#[test]
fn report_of_nothing() {
    let state = AggregateState::new();
    assert_eq!(
        render_report(&state, &strings(&[]), true),
        strings(&["Errors: 0", "Warnings: 0", "Info: 0", "Top errors:", "Files processed: "])
    );
}
