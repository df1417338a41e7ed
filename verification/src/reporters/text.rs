//! Reporters that show each event of a task as lines of text.

use chrono::{DateTime, Local, Utc};
use crate::chars::{decimal, push_char, push_decimal, push_repeated, push_text, to_chars};
use crate::data::{Data, DataEntryView, value_text};
use crate::reporters::{Delivery, DONTPRINT_TAG, EventKind, Reporter};
use crate::reporters::colors::{
    is_rendering, plain_text, render, Segment, segment_views, SegmentView, Style,
};
use crate::reporters::level::Level;
use crate::reporters::utils::{level_of_task, parse_level};
use crate::task_internal::{
    full_name_of, opt_text, TaskInternal, TaskResult, TaskResultView, TaskStatus, TaskStatusView,
    TaskView,
};
use crate::time::Timestamp;
use vstd::prelude::*;

verus! {

/// Which event of a task a line tells of.
#[derive(Clone, Copy, PartialEq, Eq, Debug, Structural)]
pub enum TaskReportType {
    Start,
    End,
}

/// How a line shows the instant of its event.
#[derive(Clone, Copy, PartialEq, Eq, Debug, Structural)]
#[allow(clippy::upper_case_acronyms)]
pub enum TimestampFormat {
    /// Date and time in UTC.
    UTC,
    /// The time of day in the time zone of the machine.
    Local,
    /// Not at all.
    Off,
    /// As a placeholder that is the same for every instant.
    Redacted,
}

/// How a line shows how long its task took.
#[derive(Clone, Copy, PartialEq, Eq, Debug, Structural)]
pub enum DurationFormat {
    Milliseconds,
    /// Not at all.
    Off,
}

/// The text without the escape sequences of a terminal, as the crate
/// `strip-ansi-escapes` gives it.
pub uninterp spec fn ansi_stripped(text: Seq<char>) -> Seq<char>;

/// The text without the escape sequences of a terminal.
///
/// Trusted: `strip_ansi_escapes::strip` runs the bytes of the text through
/// a terminal parser and keeps what the parser prints, which are characters
/// and line feeds; the result is named by [`ansi_stripped`]. Writing into
/// memory, it returns no error.
#[verifier::external_body]
pub fn strip_ansi(s: &str) -> (r: String)
    ensures
        r@ == ansi_stripped(s@),
{
    let bytes = strip_ansi_escapes::strip(s).unwrap_or_default();
    String::from_utf8_lossy(&bytes).into_owned()
}

/// Date and time of the instant `secs` seconds after the Unix epoch, in UTC,
/// as `chrono` shows them; none where `chrono` cannot hold the instant.
pub uninterp spec fn utc_text(secs: i64) -> Option<Seq<char>>;

/// Trusted: `chrono::DateTime::<Utc>::from_timestamp` gives the instant, or
/// none where it is out of range, and its `Debug` form is the text, which is
/// named by [`utc_text`].
#[verifier::external_body]
fn chrono_utc(secs: i64) -> (text: Option<String>)
    ensures
        opt_text(text) == utc_text(secs),
{
    match DateTime::<Utc>::from_timestamp(secs, 0) {
        Some(datetime) => Some(format!("{:?}", datetime)),
        None => None,
    }
}

/// Whether a character is a decimal digit.
pub open spec fn is_digit(c: char) -> bool {
    '0' <= c && c <= '9'
}

/// Whether `t` has the shape of a time of day on a clock of twelve hours:
/// two digits each for the hour, the minute and the second, with colons in
/// between, and `AM` or `PM`.
pub open spec fn is_clock_text(t: Seq<char>) -> bool {
    &&& t.len() == 10
    &&& is_digit(t[0]) && is_digit(t[1]) && t[2] == ':'
    &&& is_digit(t[3]) && is_digit(t[4]) && t[5] == ':'
    &&& is_digit(t[6]) && is_digit(t[7])
    &&& (t[8] == 'A' || t[8] == 'P') && t[9] == 'M'
}

/// Trusted: `chrono` turns the instant into the time zone of the machine
/// and shows its time of day in the format `%I:%M:%S%p`. Which time it is
/// depends on the machine, so of the text only its shape is claimed, see
/// [`is_clock_text`], and that there is one exactly where `chrono` can hold
/// the instant, which is where [`utc_text`] has a text: both make the
/// instant by the same call.
#[verifier::external_body]
fn chrono_local(secs: i64) -> (text: Option<String>)
    ensures
        text is Some <==> utc_text(secs) is Some,
        text matches Some(t) ==> is_clock_text(t@),
{
    match DateTime::<Utc>::from_timestamp(secs, 0) {
        Some(datetime) => Some(DateTime::<Local>::from(datetime).format("%I:%M:%S%p").to_string()),
        None => None,
    }
}

/// Date and time of the instant `secs` seconds after the Unix epoch, in UTC;
/// none where the instant is out of the range of `chrono`.
pub open spec fn utc_text_of(secs: u64) -> Option<Seq<char>> {
    if secs <= i64::MAX {
        utc_text(secs as i64)
    } else {
        None
    }
}

/// The text of an instant in UTC, where `chrono` can hold the instant.
fn utc_timestamp(secs: u64) -> (text: Option<String>)
    ensures
        opt_text(text) == utc_text_of(secs),
{
    if secs <= 9223372036854775807 {
        chrono_utc(secs as i64)
    } else {
        None
    }
}

/// The time of day of an instant in the time zone of the machine, where
/// `chrono` can hold the instant.
fn local_timestamp(secs: u64) -> (text: Option<String>)
    ensures
        text is Some <==> utc_text_of(secs) is Some,
        text matches Some(t) ==> is_clock_text(t@),
{
    if secs <= 9223372036854775807 {
        chrono_local(secs as i64)
    } else {
        None
    }
}

/// The instant rounded to the nearest second, half a second up.
pub open spec fn rounded_secs(t: Timestamp) -> u64 {
    if t.unix_millis % 1000 >= 500 {
        (t.unix_millis / 1000 + 1) as u64
    } else {
        t.unix_millis / 1000
    }
}

fn round_to_secs(t: Timestamp) -> (secs: u64)
    ensures
        secs == rounded_secs(t),
{
    if t.unix_millis % 1000 >= 500 {
        t.unix_millis / 1000 + 1
    } else {
        t.unix_millis / 1000
    }
}

/// The instant of the event that a line tells of: the start of the task, or
/// its end where it has ended.
pub open spec fn event_instant(t: TaskView, report_type: TaskReportType) -> Option<Timestamp> {
    match report_type {
        TaskReportType::Start => Some(t.started_at),
        TaskReportType::End => match t.status {
            TaskStatusView::Finished(_, at) => Some(at),
            TaskStatusView::Running => None,
        },
    }
}

/// Whether `seg` is the timestamp of a line.
///
/// There is no timestamp where the format is off, and a placeholder where
/// it is redacted. Else the text of the instant, rounded to the second,
/// stands dimmed between brackets, and blanks where there is no instant or
/// no text for it. The text in UTC is [`utc_text_of`]; the text in the time
/// zone of the machine is there for the same instants and has the shape of
/// [`is_clock_text`], and nothing more is said of it.
pub open spec fn is_timestamp_segment(
    format: TimestampFormat,
    t: TaskView,
    report_type: TaskReportType,
    seg: SegmentView,
) -> bool {
    match format {
        TimestampFormat::Off => seg == (SegmentView { text: ""@, style: Style::Plain }),
        TimestampFormat::Redacted => seg == (SegmentView { text: "[ ] "@, style: Style::Plain }),
        TimestampFormat::UTC => match event_instant(t, report_type) {
            Some(at) => match utc_text_of(rounded_secs(at)) {
                Some(text) => seg == (SegmentView {
                    text: "["@ + text + "] "@,
                    style: Style::Dimmed,
                }),
                None => seg == (SegmentView {
                    text: "[                    ]"@,
                    style: Style::Plain,
                }),
            },
            None => seg == (SegmentView { text: "[                    ]"@, style: Style::Plain }),
        },
        TimestampFormat::Local => match event_instant(t, report_type) {
            Some(at) => match utc_text_of(rounded_secs(at)) {
                Some(_) => exists|text: Seq<char>|
                    #![trigger is_clock_text(text)]
                    is_clock_text(text) && seg == (SegmentView {
                        text: "["@ + text + "] "@,
                        style: Style::Dimmed,
                    }),
                None => seg == (SegmentView { text: "[          ]"@, style: Style::Plain }),
            },
            None => seg == (SegmentView { text: "[          ]"@, style: Style::Plain }),
        },
    }
}

fn bracketed(text: &str) -> (seg: Segment)
    ensures
        seg@ == (SegmentView { text: "["@ + text@ + "] "@, style: Style::Dimmed }),
{
    let mut s = String::new();
    push_text(&mut s, "[");
    push_text(&mut s, text);
    push_text(&mut s, "] ");
    assert(s@ =~= "["@ + text@ + "] "@);
    Segment { text: s, style: Style::Dimmed }
}

fn plain(text: &str) -> (seg: Segment)
    ensures
        seg@ == (SegmentView { text: text@, style: Style::Plain }),
{
    Segment { text: text.to_owned(), style: Style::Plain }
}

/// The timestamp of a line.
pub fn format_timestamp(
    timestamp_format: TimestampFormat,
    task_internal: &TaskInternal,
    report_type: TaskReportType,
) -> (seg: Segment)
    ensures
        is_timestamp_segment(timestamp_format, task_internal@, report_type, seg@),
{
    let instant: Option<Timestamp> = match report_type {
        TaskReportType::Start => Some(task_internal.started_at),
        TaskReportType::End => match &task_internal.status {
            TaskStatus::Finished(_, at) => Some(*at),
            TaskStatus::Running => None,
        },
    };
    match timestamp_format {
        TimestampFormat::Off => plain(""),
        TimestampFormat::Redacted => plain("[ ] "),
        TimestampFormat::Local => {
            let text = match instant {
                Some(at) => local_timestamp(round_to_secs(at)),
                None => None,
            };
            match text {
                Some(formatted) => bracketed(formatted.as_str()),
                None => plain("[          ]"),
            }
        },
        TimestampFormat::UTC => {
            let text = match instant {
                Some(at) => utc_timestamp(round_to_secs(at)),
                None => None,
            };
            match text {
                Some(formatted) => bracketed(formatted.as_str()),
                None => plain("[                    ]"),
            }
        },
    }
}

/// `s` with blanks before it, as many as it takes to make `width`
/// characters.
pub open spec fn padded(s: Seq<char>, width: nat) -> Seq<char> {
    if s.len() < width {
        Seq::new((width - s.len()) as nat, |i: int| ' ') + s
    } else {
        s
    }
}

/// How long a finished task took, in milliseconds; none where it still runs
/// or the clock went back while it ran.
pub open spec fn duration_of(t: TaskView) -> Option<u64> {
    match t.status {
        TaskStatusView::Finished(_, at) => at.since(t.started_at),
        TaskStatusView::Running => None,
    }
}

/// The status of a line: `| STARTING | ` for a start; for an end the
/// milliseconds that the task took, where they are known and asked for.
pub open spec fn status_segments(
    t: TaskView,
    format: DurationFormat,
    report_type: TaskReportType,
) -> Seq<SegmentView> {
    match report_type {
        TaskReportType::Start => seq![
            SegmentView { text: "| "@, style: Style::Plain },
            SegmentView { text: "STARTING"@, style: Style::Yellow },
            SegmentView { text: " | "@, style: Style::Plain },
        ],
        TaskReportType::End => match (duration_of(t), format) {
            (Some(d), DurationFormat::Milliseconds) => seq![
                SegmentView {
                    text: "| "@ + padded(decimal(d as nat), 6) + "ms | "@,
                    style: Style::BoldDimmed,
                },
            ],
            _ => Seq::<SegmentView>::empty(),
        },
    }
}

/// The status of a line.
pub fn format_status(
    task_internal: &TaskInternal,
    format: DurationFormat,
    report_type: TaskReportType,
) -> (segs: Vec<Segment>)
    ensures
        segment_views(segs@) == status_segments(task_internal@, format, report_type),
{
    let mut segs: Vec<Segment> = Vec::new();
    match report_type {
        TaskReportType::Start => {
            segs.push(plain("| "));
            segs.push(Segment { text: "STARTING".to_owned(), style: Style::Yellow });
            segs.push(plain(" | "));
            assert(segment_views(segs@) =~= status_segments(task_internal@, format, report_type));
        },
        TaskReportType::End => {
            let d = match &task_internal.status {
                TaskStatus::Finished(_, finished_at) => finished_at.duration_since(
                    task_internal.started_at,
                ),
                TaskStatus::Running => None,
            };
            match (d, format) {
                (Some(d), DurationFormat::Milliseconds) => {
                    let mut digits = String::new();
                    push_decimal(&mut digits, d);
                    assert(digits@ =~= decimal(d as nat));
                    let n = to_chars(digits.as_str()).len();
                    let mut s = String::new();
                    push_text(&mut s, "| ");
                    if n < 6 {
                        push_repeated(&mut s, ' ', 6 - n);
                    }
                    push_text(&mut s, digits.as_str());
                    push_text(&mut s, "ms | ");
                    assert(s@ =~= "| "@ + padded(decimal(d as nat), 6) + "ms | "@);
                    segs.push(Segment { text: s, style: Style::BoldDimmed });
                    assert(segment_views(segs@) =~= status_segments(
                        task_internal@,
                        format,
                        report_type,
                    ));
                },
                _ => {
                    assert(segment_views(segs@) =~= status_segments(
                        task_internal@,
                        format,
                        report_type,
                    ));
                },
            }
        },
    }
    segs
}

/// The name of a line: the full name of the task; after `[ERR] ` and in red
/// for a task that has failed, else in yellow for a start and in green for
/// an end.
pub open spec fn name_segment(t: TaskView, report_type: TaskReportType) -> SegmentView {
    match t.status {
        TaskStatusView::Finished(TaskResultView::Failure(_), _) => SegmentView {
            text: "[ERR] "@ + full_name_of(t),
            style: Style::Red,
        },
        _ => match report_type {
            TaskReportType::Start => SegmentView { text: full_name_of(t), style: Style::Yellow },
            TaskReportType::End => SegmentView { text: full_name_of(t), style: Style::Green },
        },
    }
}

/// The name of a line.
pub fn format_name(task_internal: &TaskInternal, report_type: TaskReportType) -> (seg: Segment)
    ensures
        seg@ == name_segment(task_internal@, report_type),
{
    let failed = match &task_internal.status {
        TaskStatus::Finished(TaskResult::Failure(_), _) => true,
        _ => false,
    };
    if failed {
        let mut s = String::new();
        push_text(&mut s, "[ERR] ");
        push_text(&mut s, task_internal.full_name().as_str());
        assert(s@ =~= "[ERR] "@ + full_name_of(task_internal@));
        Segment { text: s, style: Style::Red }
    } else {
        match report_type {
            TaskReportType::Start => Segment {
                text: task_internal.full_name(),
                style: Style::Yellow,
            },
            TaskReportType::End => Segment { text: task_internal.full_name(), style: Style::Green },
        }
    }
}

/// The lines that show the entries of a data store: for each entry that
/// does not carry the tag `dontprint`, in the order of the keys, a line
/// break and, dimmed, the key and the value.
pub open spec fn data_segments(keys: Seq<Seq<char>>, entries: Seq<DataEntryView>) -> Seq<SegmentView>
    decreases keys.len(),
{
    if keys.len() == 0 || entries.len() != keys.len() {
        Seq::<SegmentView>::empty()
    } else {
        let before = data_segments(keys.drop_last(), entries.drop_last());
        if entries.last().tags.contains(DONTPRINT_TAG@) {
            before
        } else {
            before + seq![
                SegmentView { text: "\n"@, style: Style::Plain },
                SegmentView {
                    text: "  |      "@ + keys.last() + ": "@ + value_text(entries.last().value),
                    style: Style::Dimmed,
                },
            ]
        }
    }
}

/// Appends the lines of a data store to `segs`.
fn push_data_segments(segs: &mut Vec<Segment>, data: &Data)
    requires
        data.wf(),
    ensures
        segment_views(final(segs)@) == segment_views(old(segs)@) + data_segments(
            data.keys(),
            data.entries(),
        ),
{
    let ghost keys = data.keys();
    let ghost entries = data.entries();
    let ghost start = segment_views(segs@);
    let n = data.len();
    let mut i: usize = 0;
    assert(keys.take(0) =~= Seq::<Seq<char>>::empty());
    assert(segment_views(segs@) =~= start + data_segments(keys.take(0), entries.take(0)));
    while i < n
        invariant
            i <= n,
            n == keys.len(),
            keys.len() == entries.len(),
            keys == data.keys(),
            entries == data.entries(),
            data.wf(),
            segment_views(segs@) == start + data_segments(
                keys.take(i as int),
                entries.take(i as int),
            ),
        decreases n - i,
    {
        let entry = data.entry_at(i);
        let ghost before = segment_views(segs@);
        proof {
            assert(keys.take(i + 1).drop_last() =~= keys.take(i as int));
            assert(entries.take(i + 1).drop_last() =~= entries.take(i as int));
            assert(keys.take(i + 1).last() == keys[i as int]);
            assert(entries.take(i + 1).last() == entries[i as int]);
        }
        if !entry.1.contains(DONTPRINT_TAG) {
            let mut s = String::new();
            push_text(&mut s, "  |      ");
            push_text(&mut s, data.key_at(i).as_str());
            push_text(&mut s, ": ");
            let text = entry.0.text();
            push_text(&mut s, text.as_str());
            assert(s@ =~= "  |      "@ + keys[i as int] + ": "@ + value_text(entries[i as int].value));
            segs.push(plain("\n"));
            segs.push(Segment { text: s, style: Style::Dimmed });
            assert(segment_views(segs@) =~= before + seq![
                SegmentView { text: "\n"@, style: Style::Plain },
                SegmentView {
                    text: "  |      "@ + keys[i as int] + ": "@ + value_text(
                        entries[i as int].value,
                    ),
                    style: Style::Dimmed,
                },
            ]);
        }
        i += 1;
    }
    assert(keys.take(i as int) =~= keys);
    assert(entries.take(i as int) =~= entries);
}

/// The lines that show the data of a task: its own entries, then its
/// transitive ones.
pub open spec fn task_data_segments(task: &TaskInternal) -> Seq<SegmentView> {
    data_segments(task.data.keys(), task.data.entries()) + data_segments(
        task.data_transitive.keys(),
        task.data_transitive.entries(),
    )
}

/// The lines that show the data of a task.
pub fn format_data(task_internal: &TaskInternal) -> (segs: Vec<Segment>)
    requires
        task_internal.wf(),
    ensures
        segment_views(segs@) == task_data_segments(task_internal),
{
    let mut segs: Vec<Segment> = Vec::new();
    assert(segment_views(segs@) =~= Seq::<SegmentView>::empty());
    push_data_segments(&mut segs, &task_internal.data);
    push_data_segments(&mut segs, &task_internal.data_transitive);
    assert(segment_views(segs@) =~= task_data_segments(task_internal));
    segs
}

/// The text with `  |  ` before each of its lines.
pub open spec fn indented(text: Seq<char>) -> Seq<char>
    decreases text.len(),
{
    if text.len() == 0 {
        "  |  "@
    } else if text.last() == '\n' {
        indented(text.drop_last()) + "\n  |  "@
    } else {
        indented(text.drop_last()).push(text.last())
    }
}

/// The text with `  |  ` before each of its lines.
pub fn indent(text: &str) -> (s: String)
    ensures
        s@ == indented(text@),
{
    let v = to_chars(text);
    let mut s = String::new();
    push_text(&mut s, "  |  ");
    let mut i: usize = 0;
    assert(v@.take(0) =~= Seq::<char>::empty());
    assert(s@ =~= indented(v@.take(0)));
    while i < v.len()
        invariant
            i <= v.len(),
            s@ == indented(v@.take(i as int)),
        decreases v.len() - i,
    {
        proof {
            assert(v@.take(i + 1).drop_last() =~= v@.take(i as int));
            assert(v@.take(i + 1).last() == v@[i as int]);
        }
        if v[i] == '\n' {
            push_text(&mut s, "\n  |  ");
        } else {
            push_char(&mut s, v[i]);
        }
        i += 1;
    }
    assert(v@.take(i as int) =~= v@);
    s
}

/// What a line shows of the failure of a task: the message that the task
/// shows in place of its errors, where it has one, else the text of the
/// error.
pub open spec fn shown_error(t: TaskView) -> Option<Seq<char>> {
    match t.status {
        TaskStatusView::Finished(TaskResultView::Failure(msg), _) => match t.hide_errors {
            Some(instead) => Some(instead),
            None => Some(msg),
        },
        _ => None,
    }
}

/// The lines that show the failure of a task: after a line that is empty but
/// for its margin, the lines of [`shown_error`], each behind the margin.
pub open spec fn error_segments(t: TaskView) -> Seq<SegmentView> {
    match shown_error(t) {
        Some(msg) => seq![SegmentView { text: "\n  |\n"@ + indented(msg), style: Style::Plain }],
        None => Seq::<SegmentView>::empty(),
    }
}

/// The lines that show the failure of a task.
pub fn format_error(task_internal: &TaskInternal) -> (segs: Vec<Segment>)
    ensures
        segment_views(segs@) == error_segments(task_internal@),
{
    let mut segs: Vec<Segment> = Vec::new();
    match &task_internal.status {
        TaskStatus::Finished(TaskResult::Failure(error_msg), _) => {
            let mut s = String::new();
            push_text(&mut s, "\n  |\n");
            let error_log = match &task_internal.hide_errors {
                Some(instead) => indent(instead.as_str()),
                None => indent(error_msg.as_str()),
            };
            push_text(&mut s, error_log.as_str());
            segs.push(Segment { text: s, style: Style::Plain });
            assert(segment_views(segs@) =~= error_segments(task_internal@));
        },
        _ => {
            assert(segment_views(segs@) =~= error_segments(task_internal@));
        },
    }
    segs
}

/// The segments of the line that tells of an event of a task: the timestamp,
/// the status, the name and, for an end, the data and the failure.
pub open spec fn line_of(
    timestamp: SegmentView,
    task: &TaskInternal,
    duration_format: DurationFormat,
    report_type: TaskReportType,
) -> Seq<SegmentView> {
    seq![timestamp] + status_segments(task@, duration_format, report_type) + seq![
        name_segment(task@, report_type),
    ] + (match report_type {
        TaskReportType::End => task_data_segments(task) + error_segments(task@),
        TaskReportType::Start => Seq::<SegmentView>::empty(),
    })
}

/// The segments of the line that tells of an event of a task, behind the
/// given timestamp.
pub fn make_line(
    timestamp: Segment,
    task_internal: &TaskInternal,
    duration_format: DurationFormat,
    report_type: TaskReportType,
) -> (segs: Vec<Segment>)
    requires
        task_internal.wf(),
    ensures
        segment_views(segs@) == line_of(timestamp@, task_internal, duration_format, report_type),
{
    let mut segs: Vec<Segment> = Vec::new();
    let ghost ts = timestamp@;
    segs.push(timestamp);
    let mut status = format_status(task_internal, duration_format, report_type);
    let ghost v1 = segment_views(segs@);
    let ghost vs = segment_views(status@);
    segs.append(&mut status);
    assert(segment_views(segs@) =~= v1 + vs);
    segs.push(format_name(task_internal, report_type));
    if let TaskReportType::End = report_type {
        let mut data = format_data(task_internal);
        let ghost v2 = segment_views(segs@);
        let ghost vd = segment_views(data@);
        segs.append(&mut data);
        assert(segment_views(segs@) =~= v2 + vd);
        let mut error = format_error(task_internal);
        let ghost v3 = segment_views(segs@);
        let ghost ve = segment_views(error@);
        segs.append(&mut error);
        assert(segment_views(segs@) =~= v3 + ve);
    }
    assert(segment_views(segs@) =~= line_of(ts, task_internal, duration_format, report_type));
    segs
}

/// Whether `line` tells of an event of a task in the given formats: it shows
/// the segments of [`line_of`] behind a timestamp of the given format, each
/// painted in its style.
pub open spec fn is_line(
    task: &TaskInternal,
    timestamp_format: TimestampFormat,
    duration_format: DurationFormat,
    report_type: TaskReportType,
    line: Seq<char>,
) -> bool {
    exists|timestamp: SegmentView| #[trigger]
        is_timestamp_segment(timestamp_format, task@, report_type, timestamp) && is_rendering(
            line_of(timestamp, task, duration_format, report_type),
            line,
        )
}

/// The line that tells of an event of a task.
pub fn make_string(
    task_internal: &TaskInternal,
    timestamp_format: TimestampFormat,
    duration_format: DurationFormat,
    report_type: TaskReportType,
) -> (line: String)
    requires
        task_internal.wf(),
    ensures
        is_line(task_internal, timestamp_format, duration_format, report_type, line@),
{
    let timestamp = format_timestamp(timestamp_format, task_internal, report_type);
    let ghost ts = timestamp@;
    let segs = make_line(timestamp, task_internal, duration_format, report_type);
    let line = render(&segs);
    assert(is_timestamp_segment(timestamp_format, task_internal@, report_type, ts));
    line
}

/// The line that tells of an event of a task, without any style and behind
/// the given timestamp.
pub fn make_plain_string(
    timestamp: &str,
    task_internal: &TaskInternal,
    duration_format: DurationFormat,
    report_type: TaskReportType,
) -> (line: String)
    requires
        task_internal.wf(),
    ensures
        line@ == plain_text(
            line_of(
                (SegmentView { text: timestamp@, style: Style::Plain }),
                task_internal,
                duration_format,
                report_type,
            ),
        ),
{
    let segs = make_line(plain(timestamp), task_internal, duration_format, report_type);
    crate::reporters::colors::render_plain(&segs)
}

/// Writes the events of tasks as lines of text, for the standard streams.
pub struct StdioReporter {
    pub timestamp_format: Option<TimestampFormat>,
    /// Whether the lines go to the standard output in place of the standard
    /// error stream.
    pub use_stdout: bool,
    /// Whether the starts of tasks are written as well as their ends.
    pub log_task_start: bool,
    pub max_log_level: Level,
}

/// Whether a reporter set to `max_log_level` writes the events of a task:
/// the level of the task does not come after that level, and the task does
/// not carry the tag `dontprint`.
pub open spec fn is_printed(t: TaskView, max_log_level: Level) -> bool {
    level_of_task(t.tags).rank() <= max_log_level.rank() && !t.tags.contains(DONTPRINT_TAG@)
}

impl StdioReporter {
    /// A reporter that writes ends only, to the standard error stream, with
    /// timestamps in UTC, for tasks up to level `L1`.
    pub fn new() -> (r: StdioReporter)
        ensures
            r.timestamp_format is None,
            !r.use_stdout,
            !r.log_task_start,
            r.max_log_level == Level::L1,
    {
        Self {
            timestamp_format: None,
            use_stdout: false,
            log_task_start: false,
            max_log_level: Level::L1,
        }
    }

    /// The format of the timestamps: UTC unless another is set.
    pub open spec fn format(&self) -> TimestampFormat {
        match self.timestamp_format {
            Some(f) => f,
            None => TimestampFormat::UTC,
        }
    }

    /// The line to write for an event of a task, with the duration in
    /// milliseconds; none where the task is not printed.
    pub fn report(&self, task_internal: &TaskInternal, report_type: TaskReportType) -> (line: Option<
        String,
    >)
        requires
            task_internal.wf(),
        ensures
            line is Some <==> is_printed(task_internal@, self.max_log_level),
            line matches Some(text) ==> is_line(
                task_internal,
                self.format(),
                DurationFormat::Milliseconds,
                report_type,
                text@,
            ),
    {
        let level = parse_level(task_internal);
        if level.at_most(self.max_log_level) {
            if task_internal.tags.contains(DONTPRINT_TAG) {
                return None;
            }
            let timestamp_format = match self.timestamp_format {
                Some(f) => f,
                None => TimestampFormat::UTC,
            };
            let result = make_string(
                task_internal,
                timestamp_format,
                DurationFormat::Milliseconds,
                report_type,
            );
            Some(result)
        } else {
            None
        }
    }

    /// The line to write for the start of a task; none where starts are not
    /// written or the task is not printed.
    pub fn task_start(&self, task_internal: &TaskInternal) -> (line: Option<String>)
        requires
            task_internal.wf(),
        ensures
            line is Some <==> (self.log_task_start && is_printed(
                task_internal@,
                self.max_log_level,
            )),
            line matches Some(text) ==> is_line(
                task_internal,
                self.format(),
                DurationFormat::Milliseconds,
                TaskReportType::Start,
                text@,
            ),
    {
        if self.log_task_start {
            self.report(task_internal, TaskReportType::Start)
        } else {
            None
        }
    }

    /// The line to write for the end of a task; none where the task is not
    /// printed.
    pub fn task_end(&self, task_internal: &TaskInternal) -> (line: Option<String>)
        requires
            task_internal.wf(),
        ensures
            line is Some <==> is_printed(task_internal@, self.max_log_level),
            line matches Some(text) ==> is_line(
                task_internal,
                self.format(),
                DurationFormat::Milliseconds,
                TaskReportType::End,
                text@,
            ),
    {
        self.report(task_internal, TaskReportType::End)
    }
}

/// Collects the events of tasks as lines of text in a string.
pub struct StringReporter {
    output: String,
    timestamp_format: TimestampFormat,
    duration_format: DurationFormat,
    strip_ansi: bool,
    received: Ghost<Seq<Delivery>>,
}

impl View for StringReporter {
    type V = Seq<char>;

    /// The text collected so far.
    closed spec fn view(&self) -> Seq<char> {
        self.output@
    }
}

impl StringReporter {
    /// The format of the timestamps.
    pub closed spec fn timestamp_format(&self) -> TimestampFormat {
        self.timestamp_format
    }

    /// The format of the durations.
    pub closed spec fn duration_format(&self) -> DurationFormat {
        self.duration_format
    }

    /// Whether escape sequences are taken out of the lines.
    pub closed spec fn strips_ansi(&self) -> bool {
        self.strip_ansi
    }

    /// A reporter with an empty text, redacted timestamps and no durations,
    /// that takes escape sequences out of its lines.
    pub fn new() -> (r: StringReporter)
        ensures
            r@ == Seq::<char>::empty(),
            r.received() == Seq::<Delivery>::empty(),
            r.timestamp_format() == TimestampFormat::Redacted,
            r.duration_format() == DurationFormat::Off,
            r.strips_ansi(),
    {
        Self {
            output: String::new(),
            timestamp_format: TimestampFormat::Redacted,
            duration_format: DurationFormat::Off,
            strip_ansi: true,
            received: Ghost(Seq::empty()),
        }
    }

    /// Whether `text` is what the reporter adds to its text for a line: the
    /// line, without its escape sequences where the reporter takes them out,
    /// and a line break.
    pub open spec fn is_entry(
        &self,
        task: &TaskInternal,
        report_type: TaskReportType,
        text: Seq<char>,
    ) -> bool {
        exists|line: Seq<char>| #[trigger]
            is_line(task, self.timestamp_format(), self.duration_format(), report_type, line)
                && text == (if self.strips_ansi() {
                ansi_stripped(line)
            } else {
                line
            }) + seq!['\n']
    }

    /// Whether the reporter has the settings of `before`.
    pub open spec fn same_settings(&self, before: &StringReporter) -> bool {
        &&& self.timestamp_format() == before.timestamp_format()
        &&& self.duration_format() == before.duration_format()
        &&& self.strips_ansi() == before.strips_ansi()
    }

    /// Whether the text is that of `before` with the line of an event of a
    /// task added: see [`StringReporter::is_entry`]. A task that carries the
    /// tag `dontprint` adds nothing.
    pub open spec fn reported(
        &self,
        before: &StringReporter,
        task: &TaskInternal,
        report_type: TaskReportType,
    ) -> bool {
        if task@.tags.contains(DONTPRINT_TAG@) {
            self@ == before@
        } else {
            exists|text: Seq<char>| #[trigger]
                before.is_entry(task, report_type, text) && self@ == before@ + text
        }
    }

    /// Adds the line of an event of a task to the text. A task that carries
    /// the tag `dontprint` adds nothing.
    pub fn report(&mut self, task_internal: &TaskInternal, report_type: TaskReportType)
        requires
            task_internal.wf(),
        ensures
            final(self).same_settings(old(self)),
            final(self).reported(old(self), task_internal, report_type),
            final(self).received() == old(self).received(),
    {
        if task_internal.tags.contains(DONTPRINT_TAG) {
            return ;
        }
        let mut result = make_string(
            task_internal,
            self.timestamp_format,
            self.duration_format,
            report_type,
        );
        let ghost line = result@;
        if self.strip_ansi {
            result = strip_ansi(result.as_str());
        }
        let ghost shown = result@;
        push_text(&mut self.output, result.as_str());
        push_char(&mut self.output, '\n');
        proof {
            let text = shown + seq!['\n'];
            assert(self@ =~= old(self)@ + text);
            assert(is_line(
                task_internal,
                old(self).timestamp_format(),
                old(self).duration_format(),
                report_type,
                line,
            ));
            assert(old(self).is_entry(task_internal, report_type, text));
        }
    }

    /// Sets the format of the timestamps.
    pub fn set_timestamp_format(&mut self, format: TimestampFormat)
        ensures
            final(self).timestamp_format() == format,
            final(self).duration_format() == old(self).duration_format(),
            final(self).strips_ansi() == old(self).strips_ansi(),
            final(self)@ == old(self)@,
            final(self).received() == old(self).received(),
    {
        self.timestamp_format = format;
    }

    /// Switches the durations on, in milliseconds, or off.
    pub fn log_duration(&mut self, enabled: bool)
        ensures
            final(self).duration_format() == if enabled {
                DurationFormat::Milliseconds
            } else {
                DurationFormat::Off
            },
            final(self).timestamp_format() == old(self).timestamp_format(),
            final(self).strips_ansi() == old(self).strips_ansi(),
            final(self)@ == old(self)@,
            final(self).received() == old(self).received(),
    {
        self.duration_format = if enabled {
            DurationFormat::Milliseconds
        } else {
            DurationFormat::Off
        };
    }

    /// Says whether escape sequences are taken out of the lines.
    pub fn set_strip_ansi(&mut self, enabled: bool)
        ensures
            final(self).strips_ansi() == enabled,
            final(self).duration_format() == old(self).duration_format(),
            final(self).timestamp_format() == old(self).timestamp_format(),
            final(self)@ == old(self)@,
            final(self).received() == old(self).received(),
    {
        self.strip_ansi = enabled;
    }

    /// The text collected so far.
    pub fn text(&self) -> (s: String)
        ensures
            s@ == self@,
    {
        self.output.clone()
    }
}

impl Reporter for StringReporter {
    open spec fn keeps_account(&self) -> bool {
        true
    }

    closed spec fn received(&self) -> Seq<Delivery> {
        self.received@
    }

    /// Receives the start of a task and adds its line to the text: see
    /// [`StringReporter::report`].
    fn task_start(&mut self, task: &TaskInternal)
        ensures
            final(self).same_settings(old(self)),
            final(self).reported(old(self), task, TaskReportType::Start),
    {
        self.report(task, TaskReportType::Start);
        self.received = Ghost(self.received@.push(Delivery { kind: EventKind::Start, task: task@ }));
    }

    /// Receives the end of a task and adds its line to the text: see
    /// [`StringReporter::report`].
    fn task_end(&mut self, task: &TaskInternal)
        ensures
            final(self).same_settings(old(self)),
            final(self).reported(old(self), task, TaskReportType::End),
    {
        self.report(task, TaskReportType::End);
        self.received = Ghost(self.received@.push(Delivery { kind: EventKind::End, task: task@ }));
    }

    /// Receives the progress of a task, of which the text shows nothing.
    fn task_progress(&mut self, task: &TaskInternal)
        ensures
            final(self).same_settings(old(self)),
            final(self)@ == old(self)@,
    {
        self.received = Ghost(
            self.received@.push(Delivery { kind: EventKind::Progress, task: task@ }),
        );
    }
}

} // verus!
