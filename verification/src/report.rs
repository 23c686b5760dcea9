//! The report on an aggregate: the summary of the severities, the error
//! messages that rank first, the kept lines, and the list of the files.

use vstd::prelude::*;
use vstd::string::StringExecFns;
use crate::aggregate::{AggregateState, AggregateView};
use crate::errors::{stats_of, ErrorEntry, ErrorStat, ErrorTable};
use crate::ranking::{top_errors, top_of};
use crate::severity::{Severity, Tally};

verus! {

/// The number of error messages that a report lists.
pub const TOP_ERRORS: usize = 5;

/// The character for a digit.
pub open spec fn digit_char(d: nat) -> char {
    (48 + d) as char
}

/// A number in decimal notation, without leading zeros.
pub open spec fn decimal(n: nat) -> Seq<char>
    decreases n,
{
    if n < 10 {
        seq![digit_char(n)]
    } else {
        decimal(n / 10).push(digit_char(n % 10))
    }
}

/// The line of the summary for one severity: its name, a colon and a blank,
/// and the number of its lines.
pub open spec fn severity_line(s: Severity, count: nat) -> Seq<char> {
    s.label_text() + ": "@ + decimal(count)
}

/// The lines of the summary, one for each severity, in their fixed order.
pub open spec fn summary_lines(counts: Tally) -> Seq<Seq<char>> {
    seq![
        severity_line(Severity::Error, counts.errors),
        severity_line(Severity::Warning, counts.warnings),
        severity_line(Severity::Info, counts.infos),
    ]
}

/// The line for one error message: the message in double quotes, and in
/// round brackets how often it occurred.
pub open spec fn error_line(stat: ErrorStat) -> Seq<char> {
    "\""@ + stat.text + "\" ("@ + decimal(stat.count) + " occurrences)"@
}

/// The lines for the given error messages, in their order.
pub open spec fn error_lines(stats: Seq<ErrorStat>) -> Seq<Seq<char>> {
    Seq::new(stats.len(), |i: int| error_line(stats[i]))
}

/// The given texts in a row, with the separator between each two of them.
pub open spec fn joined(parts: Seq<Seq<char>>, separator: Seq<char>) -> Seq<char>
    decreases parts.len(),
{
    if parts.len() == 0 {
        Seq::empty()
    } else if parts.len() == 1 {
        parts[0]
    } else {
        joined(parts.drop_last(), separator) + separator + parts.last()
    }
}

/// The line that lists the files, in the order in which they were given.
pub open spec fn files_line(names: Seq<Seq<char>>) -> Seq<char> {
    "Files processed: "@ + joined(names, ", "@)
}

/// The heading of the list of error messages.
pub open spec fn top_errors_heading() -> Seq<char> {
    "Top errors:"@
}

/// The lines of the whole report: the summary, the heading and the lines of
/// the error messages that rank first, the kept lines where they are asked
/// for, and the line of the files.
pub open spec fn report_lines(view: AggregateView, names: Seq<Seq<char>>, with_content: bool)
    -> Seq<Seq<char>> {
    summary_lines(view.counts) + seq![top_errors_heading()] + error_lines(
        top_of(view.errors, TOP_ERRORS as nat),
    ) + (if with_content {
        view.content
    } else {
        Seq::empty()
    }) + seq![files_line(names)]
}

fn push_decimal(out: &mut String, n: usize)
    ensures
        final(out)@ == old(out)@ + decimal(n as nat),
    decreases n,
{
    if n >= 10 {
        push_decimal(out, n / 10);
    }
    let d: u8 = (n % 10) as u8;
    out.push((48u8 + d) as char);
    assert(out@ =~= old(out)@ + decimal(n as nat));
}

/// A number in decimal notation.
pub fn render_count(n: usize) -> (r: String)
    ensures
        r@ == decimal(n as nat),
{
    let mut out = String::new();
    push_decimal(&mut out, n);
    assert(out@ =~= decimal(n as nat));
    out
}

/// The line of the summary for one severity.
pub fn render_severity(s: Severity, count: usize) -> (r: String)
    ensures
        r@ == severity_line(s, count as nat),
{
    let mut out = String::new();
    out.append(s.label());
    out.append(": ");
    push_decimal(&mut out, count);
    assert(out@ =~= severity_line(s, count as nat));
    out
}

/// The line for one error message.
pub fn render_error(entry: &ErrorEntry) -> (r: String)
    ensures
        r@ == error_line(entry@),
{
    let mut out = String::new();
    out.append("\"");
    out.append(entry.text().as_str());
    out.append("\" (");
    push_decimal(&mut out, entry.count());
    out.append(" occurrences)");
    assert(out@ =~= error_line(entry@));
    out
}

/// The line that lists the files.
pub fn render_files(names: &Vec<String>) -> (r: String)
    ensures
        r@ == files_line(names.deep_view()),
{
    let mut out = String::new();
    out.append("Files processed: ");
    let mut i: usize = 0;
    assert(out@ =~= "Files processed: "@ + joined(names.deep_view().take(0), ", "@));
    while i < names.len()
        invariant
            i <= names.len(),
            out@ == "Files processed: "@ + joined(names.deep_view().take(i as int), ", "@),
        decreases names.len() - i,
    {
        let ghost done = names.deep_view().take(i as int);
        let ghost next = names.deep_view().take(i + 1);
        assert(next.drop_last() =~= done);
        assert(next.last() == names[i as int]@);
        if i > 0 {
            out.append(", ");
        }
        out.append(names[i].as_str());
        assert(out@ =~= "Files processed: "@ + joined(next, ", "@));
        i += 1;
    }
    assert(names.deep_view().take(names.len() as int) =~= names.deep_view());
    out
}

/// The lines of the summary, one for each severity, in their fixed order.
pub fn severity_summary(state: &AggregateState) -> (r: Vec<String>)
    ensures
        r.deep_view() == summary_lines(state@.counts),
{
    let mut out: Vec<String> = Vec::new();
    out.push(render_severity(Severity::Error, state.count(Severity::Error)));
    out.push(render_severity(Severity::Warning, state.count(Severity::Warning)));
    out.push(render_severity(Severity::Info, state.count(Severity::Info)));
    assert(out.deep_view() =~= summary_lines(state@.counts));
    out
}

/// The lines for the error messages of the table that rank first.
pub fn top_error_lines(table: &ErrorTable) -> (r: Vec<String>)
    requires
        table.wf(),
    ensures
        r.deep_view() == error_lines(top_of(table@, TOP_ERRORS as nat)),
{
    let top = top_errors(table, TOP_ERRORS);
    let mut out: Vec<String> = Vec::new();
    let mut i: usize = 0;
    while i < top.len()
        invariant
            i <= top.len(),
            out.len() == i,
            forall|j: int| 0 <= j < i ==> (#[trigger] out[j])@ == error_line(top[j]@),
        decreases top.len() - i,
    {
        out.push(render_error(&top[i]));
        i += 1;
    }
    assert(out.deep_view() =~= error_lines(stats_of(top@)));
    out
}

/// The lines of the whole report.
pub fn render_report(state: &AggregateState, names: &Vec<String>, with_content: bool) -> (r: Vec<
    String,
>)
    requires
        state.wf(),
    ensures
        r.deep_view() == report_lines(state@, names.deep_view(), with_content),
{
    let mut out = severity_summary(state);
    out.push("Top errors:".to_owned());
    let mut top = top_error_lines(state.errors());
    let ghost head = out.deep_view();
    let ghost ranked = top.deep_view();
    out.append(&mut top);
    assert(out.deep_view() =~= head + ranked);
    if with_content {
        let content = state.content();
        let mut i: usize = 0;
        let ghost base = out.deep_view();
        while i < content.len()
            invariant
                i <= content.len(),
                out.deep_view() == base + content.deep_view().take(i as int),
            decreases content.len() - i,
        {
            let ghost before = out.deep_view();
            let line = content[i].clone();
            out.push(line);
            assert(out.deep_view() =~= before.push(line@));
            assert(content.deep_view().take(i + 1) =~= content.deep_view().take(i as int).push(
                content[i as int]@,
            ));
            i += 1;
        }
        assert(content.deep_view().take(content.len() as int) =~= content.deep_view());
    }
    let ghost body = out.deep_view();
    let files = render_files(names);
    out.push(files);
    assert(out.deep_view() =~= body.push(files@));
    assert(out.deep_view() =~= report_lines(state@, names.deep_view(), with_content));
    out
}

} // verus!
