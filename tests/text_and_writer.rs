use hyprlog::clock::DayKey;
use hyprlog::config::{Config, IssueKind};
use hyprlog::event::parse_timestamp;
use hyprlog::format::{format_duration, truncate_string};
use hyprlog::interval::{date_range_text, Interval};
use hyprlog::model::{Class, Report, Title};
use hyprlog::timeline::section_index;
use hyprlog::writer::{command_message, day_file_name, encode_line, FailureStep, LogMsg, WriterState, WriterStep, HEADER};

#[test]
fn durations_are_written_by_unit() {
    assert_eq!(format_duration(0), "0ms");
    assert_eq!(format_duration(999), "999ms");
    assert_eq!(format_duration(1_000), "00:01");
    assert_eq!(format_duration(61_000), "01:01");
    assert_eq!(format_duration(3_661_000), "01:01:01");
    assert_eq!(format_duration(90_061_000), "1d 01:01:01");
    assert_eq!(format_duration(365 * 86_400_000 + 5_000), "1y 0d 00:00:05");
}

#[test]
fn labels_are_clipped() {
    assert_eq!(truncate_string("firefox", 10), "firefox");
    assert_eq!(truncate_string("firefox-developer", 10), "firefox...");
    assert_eq!(truncate_string("firefox", 2), "..");
    assert_eq!(truncate_string("é", 1), ".");
    assert_eq!(truncate_string("é", 2), "é");
    assert_eq!(truncate_string("abcdéfgh", 7), "abcd...");
    assert_eq!(truncate_string("abcéfgh", 7), "abc...");
    assert_eq!(truncate_string("abéfgh", 7), "abéfgh");
    assert_eq!(truncate_string("abéfghi", 7), "abé...");
}

#[test]
fn timestamps_parse_like_integers() {
    assert_eq!(parse_timestamp("1700000000000"), Some(1_700_000_000_000));
    assert_eq!(parse_timestamp("-5"), Some(-5));
    assert_eq!(parse_timestamp("+7"), Some(7));
    assert_eq!(parse_timestamp("9223372036854775807"), Some(i64::MAX));
    assert_eq!(parse_timestamp("-9223372036854775808"), Some(i64::MIN));
    assert_eq!(parse_timestamp("9223372036854775808"), None);
    assert_eq!(parse_timestamp(""), None);
    assert_eq!(parse_timestamp("-"), None);
    assert_eq!(parse_timestamp("12 "), None);
}

#[test]
fn lines_escape_quotes() {
    assert_eq!(encode_line(42, "kitty", "say \"hi\""), "42,kitty,\"say \"\"hi\"\"\"\n");
    assert_eq!(encode_line(-3, "SYSTEM", "boot"), "-3,SYSTEM,\"boot\"\n");
    assert_eq!(HEADER, "timestamp,class,title\n");
}

#[test]
fn day_files_are_named_by_date() {
    assert_eq!(day_file_name(DayKey { year: 2024, month: 3, day: 7 }), "2024-03-07.csv");
    assert_eq!(
        date_range_text(DayKey { year: 2024, month: 3, day: 7 }, DayKey { year: 2024, month: 3, day: 9 }),
        "2024-03-07 - 2024-03-09"
    );
    assert_eq!(
        date_range_text(DayKey { year: 2024, month: 12, day: 31 }, DayKey { year: 2024, month: 12, day: 31 }),
        "2024-12-31"
    );
    assert_eq!(day_file_name(DayKey { year: -44, month: 3, day: 15 }), "-0044-03-15.csv");
}

#[test]
fn commands_become_markers() {
    match command_message("  idle\n", 5) {
        Some(LogMsg::Line { ts, class, title }) => {
            assert_eq!(ts, 5);
            assert_eq!(class, "SYSTEM");
            assert_eq!(title, "idle");
        }
        _ => panic!("idle not recognised"),
    }
    assert!(matches!(command_message("resume", 1), Some(LogMsg::Line { .. })));
    assert!(command_message("reboot", 1).is_none());
}

#[test]
fn writer_rolls_over_once_per_day() {
    let mut w = WriterState::new();
    let today = DayKey { year: 2025, month: 1, day: 2 };
    let msg = LogMsg::Line { ts: 1, class: String::from("a"), title: String::from("b") };
    match w.plan(msg, Some(today)) {
        WriterStep::Append { open, line } => {
            assert_eq!(open, Some(String::from("2025-01-02.csv")));
            assert_eq!(line, "1,a,\"b\"\n");
        }
        WriterStep::Stop => panic!("unexpected stop"),
    }
    w.opened(today);
    let msg = LogMsg::Line { ts: 2, class: String::from("a"), title: String::from("b") };
    assert!(matches!(w.plan(msg, Some(today)), WriterStep::Append { open: None, .. }));
    let tomorrow = DayKey { year: 2025, month: 1, day: 3 };
    let msg = LogMsg::Line { ts: 3, class: String::from("a"), title: String::from("b") };
    assert!(matches!(w.plan(msg, Some(tomorrow)), WriterStep::Append { open: Some(_), .. }));
    let msg = LogMsg::Line { ts: 4, class: String::from("a"), title: String::from("b") };
    assert!(matches!(w.plan(msg, None), WriterStep::Append { open: None, .. }));
    assert!(matches!(w.plan(LogMsg::Shutdown, Some(today)), WriterStep::Stop));
    assert_eq!(WriterState::after_failure(1), FailureStep::RetryAfter(500));
    assert_eq!(WriterState::after_failure(2), FailureStep::Drop);
}

#[test]
fn config_reads_aliases_and_reports_problems() {
    let text = "# comment\nclass_alias = \"Slack\", \"slack\" # chat\n\nclass_alias \"x\"\nclass_alias = a, \"b\"\nclass_alias = \"a\" \"b\"\nfoo bar\nclass_alias = \"Slack\", \"work\"\r\n";
    let (config, issues) = Config::parse(text);
    assert_eq!(config.class_mappings, vec![(String::from("Slack"), String::from("work"))]);
    let seen: Vec<(usize, IssueKind, String)> =
        issues.into_iter().map(|i| (i.line, i.kind, i.symbol)).collect();
    assert_eq!(
        seen,
        vec![
            (4, IssueKind::MissingEquals, String::new()),
            (5, IssueKind::ClassNotQuoted, String::new()),
            (6, IssueKind::MissingComma, String::new()),
            (7, IssueKind::UnknownSymbol, String::from("foo")),
        ]
    );
    let c = Config::new("class_alias = \"a\", \"b\"\nclass_alias = \"c\", d\nclass_alias = \"e\"=, \"f\"");
    assert_eq!(c.class_mappings, vec![(String::from("a"), String::from("b"))]);
    let (_, issues) = Config::parse("class_alias = \"c\", d\nclass_alias = \"e\"=, \"f\"");
    assert_eq!(issues[0].kind, IssueKind::AliasNotQuoted);
    assert_eq!(issues[1].kind, IssueKind::MultipleEquals);
}

#[test]
fn report_totals_add_up() {
    let mut report = Report::new();
    assert_eq!(report.total_duration(), 0);
    let mut a = Class::new();
    a.titles.push(Title { title: String::from("x"), duration: 10 });
    a.titles.push(Title { title: String::from("y"), duration: 5 });
    assert_eq!(a.total(), 15);
    let mut b = Class::new();
    b.titles.push(Title { title: String::from("z"), duration: 7 });
    report.classes.push(a);
    report.classes.push(b);
    assert_eq!(report.total_duration(), 22);
}

#[test]
fn windows_measure_and_contain() {
    let w = Interval { start: 1000, end: 5000 };
    assert_eq!(w.width(), 4000);
    assert!(w.contains_utc_timestamp_millis(1000));
    assert!(!w.contains_utc_timestamp_millis(5000));
    assert_eq!(Interval { start: 5, end: 1 }.width(), 0);
    assert_eq!(section_index(1000, 250, 1999), 3);
}
