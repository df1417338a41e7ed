use ll::data::DataValue;
use ll::reporters::colors::{paint, render, render_plain, Segment, Style};
use ll::reporters::level::Level;
use ll::reporters::text::{
    format_data, format_error, format_name, format_status, format_timestamp, indent, make_plain_string,
    make_string, strip_ansi, DurationFormat, StdioReporter, StringReporter, TaskReportType,
    TimestampFormat,
};
use ll::reporters::utils::parse_level;
use ll::reporters::{Reporter, DONTPRINT_TAG};
use ll::task_internal::TaskInternal;
use ll::task_tree::TaskTree;
use ll::time::Timestamp;

fn at(unix_millis: u64) -> Timestamp {
    Timestamp { unix_millis }
}

fn task(tree: &TaskTree, id: u64) -> TaskInternal {
    tree.internal().get_task(ll::uniq_id::UniqID(id)).unwrap().clone_task()
}

fn texts(segments: &[Segment]) -> Vec<String> {
    segments.iter().map(|s| format!("{:?}:{}", s.style, s.text)).collect()
}

fn sample() -> TaskTree {
    let mut tree = TaskTree::new();
    let root = tree.create_task("root", at(947_638_923_004));
    let ok = tree.create_task_internal("ok #l2", Some(root), at(947_638_923_499));
    let bad = tree.create_task_internal("bad", Some(root), at(947_638_923_500));
    tree.add_data_transitive_for_task(root, "late", DataValue::Int(1));
    tree.add_data(ok, "k", DataValue::String("v".to_string()));
    tree.add_data(ok, "secret #dontprint", DataValue::Int(7));
    tree.mark_done(ok, None, at(947_638_924_733));
    tree.mark_done(bad, Some("first\nsecond\n".to_string()), at(947_638_923_400));
    tree
}

#[test]
fn the_dontprint_tag_is_spelled_dontprint() {
    assert_eq!(DONTPRINT_TAG, "dontprint");
}

#[test]
fn levels_come_from_tags() {
    let mut tree = TaskTree::new();
    tree.create_task("a", at(1));
    tree.create_task("b #l3 #l0", at(1));
    tree.create_task("c #l3 #l2", at(1));
    tree.create_task("d #l3", at(1));
    tree.create_task("e #info", at(1));
    assert_eq!(parse_level(&task(&tree, 0)), Level::L1);
    assert_eq!(parse_level(&task(&tree, 1)), Level::L0);
    assert_eq!(parse_level(&task(&tree, 2)), Level::L2);
    assert_eq!(parse_level(&task(&tree, 3)), Level::L3);
    assert_eq!(parse_level(&task(&tree, 4)), Level::L1);
    assert_eq!(Level::default(), Level::L1);
    assert!(Level::L0.at_most(Level::L1));
    assert!(Level::L2.at_most(Level::L2));
    assert!(!Level::L3.at_most(Level::L2));
    let mut levels = vec![Level::L3, Level::L0, Level::L2, Level::L1];
    levels.sort();
    assert_eq!(levels, vec![Level::L0, Level::L1, Level::L2, Level::L3]);
}

#[test]
fn timestamps_in_utc_are_rounded_to_the_second() {
    let tree = sample();
    let seg = format_timestamp(TimestampFormat::UTC, &task(&tree, 0), TaskReportType::Start);
    assert_eq!(seg.text, "[2000-01-12T01:02:03Z] ");
    assert_eq!(seg.style, Style::Dimmed);
    let seg = format_timestamp(TimestampFormat::UTC, &task(&tree, 1), TaskReportType::Start);
    assert_eq!(seg.text, "[2000-01-12T01:02:03Z] ");
    let seg = format_timestamp(TimestampFormat::UTC, &task(&tree, 2), TaskReportType::Start);
    assert_eq!(seg.text, "[2000-01-12T01:02:04Z] ");
    let seg = format_timestamp(TimestampFormat::UTC, &task(&tree, 1), TaskReportType::End);
    assert_eq!(seg.text, "[2000-01-12T01:02:05Z] ");
    let seg = format_timestamp(TimestampFormat::UTC, &task(&tree, 0), TaskReportType::End);
    assert_eq!(seg.text, "[                    ]");
    assert_eq!(seg.style, Style::Plain);
}

#[test]
fn timestamps_out_of_range_are_blank() {
    let mut tree = TaskTree::new();
    tree.create_task("far", at(u64::MAX));
    let seg = format_timestamp(TimestampFormat::UTC, &task(&tree, 0), TaskReportType::Start);
    assert_eq!(seg.text, "[                    ]");
    let seg = format_timestamp(TimestampFormat::Local, &task(&tree, 0), TaskReportType::Start);
    assert_eq!(seg.text, "[          ]");
}

#[test]
fn other_timestamp_formats() {
    let tree = sample();
    let t = task(&tree, 0);
    assert_eq!(format_timestamp(TimestampFormat::Off, &t, TaskReportType::Start).text, "");
    assert_eq!(format_timestamp(TimestampFormat::Redacted, &t, TaskReportType::End).text, "[ ] ");
    let local = format_timestamp(TimestampFormat::Local, &t, TaskReportType::Start);
    assert_eq!(local.style, Style::Dimmed);
    assert_eq!(local.text.len(), "[01:02:03AM] ".len());
    assert!(local.text.starts_with('[') && local.text.ends_with("M] "));
    let clock: Vec<char> = local.text.chars().collect();
    for i in [1, 2, 4, 5, 7, 8] {
        assert!(clock[i].is_ascii_digit());
    }
    assert_eq!((clock[3], clock[6]), (':', ':'));
    assert!(clock[9] == 'A' || clock[9] == 'P');
    // Time zones differ from UTC by whole minutes, so the seconds are those of UTC.
    assert_eq!(&local.text[7..9], "03");
    let none = format_timestamp(TimestampFormat::Local, &t, TaskReportType::End);
    assert_eq!(none.text, "[          ]");
}

#[test]
fn the_status_shows_the_duration() {
    let tree = sample();
    assert_eq!(
        texts(&format_status(&task(&tree, 1), DurationFormat::Milliseconds, TaskReportType::Start)),
        vec!["Plain:| ", "Yellow:STARTING", "Plain: | "]
    );
    assert_eq!(
        texts(&format_status(&task(&tree, 1), DurationFormat::Milliseconds, TaskReportType::End)),
        vec!["BoldDimmed:|   1234ms | "]
    );
    assert!(
        format_status(&task(&tree, 1), DurationFormat::Off, TaskReportType::End).is_empty()
    );
    assert!(
        format_status(&task(&tree, 0), DurationFormat::Milliseconds, TaskReportType::End).is_empty()
    );
    assert!(
        format_status(&task(&tree, 2), DurationFormat::Milliseconds, TaskReportType::End).is_empty()
    );

    let mut long = TaskTree::new();
    let id = long.create_task("long", at(0));
    long.mark_done(id, None, at(12_345_678));
    assert_eq!(
        texts(&format_status(&task(&long, 0), DurationFormat::Milliseconds, TaskReportType::End)),
        vec!["BoldDimmed:| 12345678ms | "]
    );
}

#[test]
fn the_name_tells_of_failure() {
    let tree = sample();
    assert_eq!(
        texts(&[format_name(&task(&tree, 2), TaskReportType::Start)]),
        vec!["Red:[ERR] root:bad"]
    );
    assert_eq!(
        texts(&[format_name(&task(&tree, 1), TaskReportType::Start)]),
        vec!["Yellow:root:ok"]
    );
    assert_eq!(
        texts(&[format_name(&task(&tree, 1), TaskReportType::End)]),
        vec!["Green:root:ok"]
    );
}

#[test]
fn data_lines_leave_out_dontprint() {
    let tree = sample();
    assert_eq!(
        texts(&format_data(&task(&tree, 1))),
        vec!["Plain:\n", "Dimmed:  |      k: v"]
    );
    assert_eq!(
        texts(&format_data(&task(&tree, 0))),
        vec!["Plain:\n", "Dimmed:  |      late: 1"]
    );
    assert!(format_data(&task(&tree, 2)).is_empty());
}

#[test]
fn error_lines_are_indented() {
    let tree = sample();
    assert_eq!(indent(""), "  |  ");
    assert_eq!(indent("a\n\nb"), "  |  a\n  |  \n  |  b");
    assert_eq!(
        texts(&format_error(&task(&tree, 2))),
        vec!["Plain:\n  |\n  |  first\n  |  second\n  |  "]
    );
    assert!(format_error(&task(&tree, 1)).is_empty());
    assert!(format_error(&task(&tree, 0)).is_empty());
}

#[test]
fn a_hidden_error_shows_its_message() {
    let mut tree = TaskTree::new();
    let id = tree.create_task("t", at(1));
    tree.hide_error_msg_for_task(id, Some("see the top".to_string()));
    tree.mark_done(id, Some("long\nchain".to_string()), at(2));
    assert_eq!(
        texts(&format_error(&task(&tree, 0))),
        vec!["Plain:\n  |\n  |  see the top"]
    );
}

#[test]
fn plain_lines() {
    let tree = sample();
    assert_eq!(
        make_plain_string("[ ] ", &task(&tree, 1), DurationFormat::Milliseconds, TaskReportType::End),
        "[ ] |   1234ms | root:ok\n  |      k: v"
    );
    assert_eq!(
        make_plain_string("", &task(&tree, 2), DurationFormat::Off, TaskReportType::End),
        "[ERR] root:bad\n  |\n  |  first\n  |  second\n  |  "
    );
    assert_eq!(
        make_plain_string("", &task(&tree, 2), DurationFormat::Off, TaskReportType::Start),
        "| STARTING | [ERR] root:bad"
    );
}

#[test]
fn styles_show_where_colors_are_on() {
    colored::control::set_override(true);
    assert_eq!(paint("x", Style::Plain), "x");
    assert_eq!(paint("x", Style::Dimmed), "\x1b[2mx\x1b[0m");
    assert_eq!(paint("x", Style::BoldDimmed), "\x1b[1;2mx\x1b[0m");
    assert_eq!(paint("x", Style::Red), "\x1b[31mx\x1b[0m");
    assert_eq!(paint("x", Style::Yellow), "\x1b[33mx\x1b[0m");
    assert_eq!(paint("x", Style::Green), "\x1b[32mx\x1b[0m");
    assert_eq!(paint("x", Style::BlackOnYellow), "\x1b[43;30mx\x1b[0m");
    assert_eq!(paint("x", Style::BlackOnGreen), "\x1b[42;30mx\x1b[0m");
    assert_eq!(paint("x", Style::WhiteOnRed), "\x1b[41;37mx\x1b[0m");
    assert_eq!(paint("x", Style::OnBrightGreen), "\x1b[102mx\x1b[0m");
    assert_eq!(paint("x", Style::OnBlack), "\x1b[40mx\x1b[0m");

    let tree = sample();
    let line = make_string(
        &task(&tree, 1),
        TimestampFormat::Redacted,
        DurationFormat::Milliseconds,
        TaskReportType::End,
    );
    assert_eq!(
        line,
        "[ ] \x1b[1;2m|   1234ms | \x1b[0m\x1b[32mroot:ok\x1b[0m\n\x1b[2m  |      k: v\x1b[0m"
    );
    assert_eq!(strip_ansi(&line), "[ ] |   1234ms | root:ok\n  |      k: v");

    let segments = vec![
        Segment { text: "a".to_string(), style: Style::Red },
        Segment { text: "b".to_string(), style: Style::Plain },
    ];
    assert_eq!(render(&segments), "\x1b[31ma\x1b[0mb");
    assert_eq!(render_plain(&segments), "ab");

    // A style is switched on again behind each place where the text switches it off.
    assert_eq!(paint("ab\x1b[0mcd", Style::Red), "\x1b[31mab\x1b[0m\x1b[31mcd\x1b[0m");
    assert_eq!(
        paint("\x1b[0m\x1b[0m", Style::BoldDimmed),
        "\x1b[1;2m\x1b[0m\x1b[1;2m\x1b[0m\x1b[1;2m\x1b[0m"
    );
    assert_eq!(paint("a\x1b[0mb", Style::Plain), "a\x1b[0mb");
    colored::control::unset_override();
}

#[test]
fn styles_vanish_where_colors_are_off() {
    colored::control::set_override(false);
    assert_eq!(paint("x", Style::Red), "x");
    let tree = sample();
    let line = make_string(
        &task(&tree, 2),
        TimestampFormat::Off,
        DurationFormat::Milliseconds,
        TaskReportType::Start,
    );
    assert_eq!(line, "| STARTING | [ERR] root:bad");
    colored::control::unset_override();
}

#[test]
fn strip_ansi_takes_escape_sequences_out() {
    assert_eq!(strip_ansi("\x1b[m\x1b[32m\x1b[1m    Finished\x1b[m dev"), "    Finished dev");
    assert_eq!(strip_ansi("plain \u{2713}\nline"), "plain \u{2713}\nline");
    assert_eq!(strip_ansi(""), "");
}

#[test]
fn the_stdio_reporter_filters_by_level_and_tag() {
    let mut tree = TaskTree::new();
    tree.create_task("x #l3", at(1));
    tree.create_task("y #dontprint", at(1));
    tree.create_task("z #l0", at(1));
    tree.create_task("w", at(1));

    let mut reporter = StdioReporter::new();
    reporter.timestamp_format = Some(TimestampFormat::Redacted);
    assert!(!reporter.use_stdout);
    assert!(reporter.task_start(&task(&tree, 3)).is_none());
    assert!(reporter.task_end(&task(&tree, 0)).is_none());
    assert!(reporter.task_end(&task(&tree, 1)).is_none());
    assert_eq!(reporter.task_end(&task(&tree, 2)).unwrap(), "[ ] z");
    assert_eq!(reporter.task_end(&task(&tree, 3)).unwrap(), "[ ] w");

    reporter.log_task_start = true;
    assert_eq!(reporter.task_start(&task(&tree, 3)).unwrap(), "[ ] | STARTING | w");
    assert!(reporter.task_start(&task(&tree, 0)).is_none());

    reporter.max_log_level = Level::L3;
    assert_eq!(
        reporter.report(&task(&tree, 0), TaskReportType::Start).unwrap(),
        "[ ] | STARTING | x"
    );
    assert!(reporter.report(&task(&tree, 1), TaskReportType::End).is_none());
    reporter.max_log_level = Level::L0;
    assert!(reporter.task_end(&task(&tree, 3)).is_none());
    assert_eq!(reporter.task_end(&task(&tree, 2)).unwrap(), "[ ] z");
}

#[test]
fn the_string_reporter_collects_lines() {
    let tree = sample();
    let mut reporter = StringReporter::new();
    reporter.task_start(&task(&tree, 1));
    reporter.task_progress(&task(&tree, 1));
    reporter.task_end(&task(&tree, 1));
    assert_eq!(reporter.text(), "[ ] | STARTING | root:ok\n[ ] root:ok\n  |      k: v\n");

    let mut reporter = StringReporter::new();
    reporter.log_duration(true);
    reporter.set_timestamp_format(TimestampFormat::Off);
    reporter.report(&task(&tree, 1), TaskReportType::End);
    reporter.log_duration(false);
    reporter.set_timestamp_format(TimestampFormat::UTC);
    reporter.report(&task(&tree, 2), TaskReportType::Start);
    assert_eq!(
        reporter.text(),
        "|   1234ms | root:ok\n  |      k: v\n[2000-01-12T01:02:04Z] | STARTING | [ERR] root:bad\n"
    );
}

#[test]
fn the_string_reporter_keeps_styles_when_told_to() {
    colored::control::set_override(true);
    let tree = sample();
    let mut reporter = StringReporter::new();
    reporter.set_strip_ansi(false);
    reporter.task_end(&task(&tree, 0));
    assert_eq!(reporter.text(), "[ ] \x1b[32mroot\x1b[0m\n\x1b[2m  |      late: 1\x1b[0m\n");
    let mut stripped = StringReporter::new();
    stripped.task_end(&task(&tree, 0));
    assert_eq!(stripped.text(), "[ ] root\n  |      late: 1\n");
    colored::control::unset_override();
}

#[test]
fn a_dontprint_task_gives_no_line() {
    let mut tree = TaskTree::new();
    tree.create_task("quiet #dontprint", at(1));
    let mut reporter = StringReporter::new();
    reporter.task_start(&task(&tree, 0));
    reporter.task_end(&task(&tree, 0));
    assert_eq!(reporter.text(), "");
    let (starts, _) = tree.report_all();
    assert_eq!(starts.len(), 1);
    assert_eq!(starts[0].name, "quiet");
    assert!(starts[0].tags.contains("dontprint"));
}
