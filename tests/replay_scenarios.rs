use hyprlog::durations::{compute_durations, compute_durations_at};
use hyprlog::interval::Interval;
use hyprlog::reader::{DayFile, LogReader, ReadError};
use hyprlog::settings::Settings;
use hyprlog::timeline::{timeline, timeline_at};

fn day(lines: &[&str]) -> DayFile {
    let mut text = String::from("timestamp,class,title\n");
    for l in lines {
        text.push_str(l);
        text.push('\n');
    }
    DayFile::Contents(text.into_bytes())
}

fn plain_settings(start: i64, end: i64) -> Settings {
    let mut s = Settings::new(Interval { start, end });
    s.class_mappings = Vec::new();
    s
}

#[test]
fn shutdown_closes_last_session() {
    let mut reader = LogReader::new(vec![day(&[
        "1000,A,\"\"",
        "6000,B,\"\"",
        "10000,SYSTEM,\"shutdown\"",
    ])]);
    let settings = plain_settings(0, 86_400_000);
    let (list, total) = compute_durations_at(&mut reader, &settings, 20_000).unwrap();
    assert_eq!(list, vec![(String::from("A"), 5000), (String::from("B"), 4000)]);
    assert_eq!(total, 9000);
}

#[test]
fn idle_gap_is_not_counted() {
    let mut reader = LogReader::new(vec![day(&[
        "0,SYSTEM,\"resume\"",
        "0,A,\"\"",
        "500,SYSTEM,\"idle\"",
        "2000,A,\"\"",
    ])]);
    let settings = plain_settings(0, 86_400_000);
    let (list, total) = compute_durations_at(&mut reader, &settings, 3000).unwrap();
    assert_eq!(list, vec![(String::from("A"), 1500)]);
    assert_eq!(total, 1500);
}

#[test]
fn single_session_duration_is_its_length() {
    let mut reader = LogReader::new(vec![day(&["1234,term,\"shell\"", "5678,SYSTEM,\"idle\""])]);
    let settings = plain_settings(0, 86_400_000);
    let (list, total) = compute_durations_at(&mut reader, &settings, 9999).unwrap();
    assert_eq!(list, vec![(String::from("term"), 4444)]);
    assert_eq!(total, 4444);
}

#[test]
fn boot_discards_open_session() {
    let mut reader = LogReader::new(vec![day(&[
        "0,A,\"\"",
        "100,SYSTEM,\"boot\"",
        "200,B,\"\"",
        "300,SYSTEM,\"shutdown\"",
    ])]);
    let settings = plain_settings(0, 86_400_000);
    let (list, total) = compute_durations_at(&mut reader, &settings, 1000).unwrap();
    assert_eq!(list, vec![(String::from("B"), 100)]);
    assert_eq!(total, 100);
}

#[test]
fn double_resume_moves_start_forward() {
    let mut reader = LogReader::new(vec![day(&[
        "0,A,\"\"",
        "100,SYSTEM,\"idle\"",
        "200,SYSTEM,\"resume\"",
        "500,SYSTEM,\"resume\"",
        "600,SYSTEM,\"idle\"",
    ])]);
    let settings = plain_settings(0, 86_400_000);
    let (list, total) = compute_durations_at(&mut reader, &settings, 1000).unwrap();
    assert_eq!(list, vec![(String::from("A"), 200)]);
    assert_eq!(total, 200);
}

#[test]
fn resume_without_close_opens_session() {
    let mut reader = LogReader::new(vec![day(&["0,A,\"\"", "50,SYSTEM,\"resume\"", "80,B,\"\""])]);
    let settings = plain_settings(0, 86_400_000);
    let (list, total) = compute_durations_at(&mut reader, &settings, 100).unwrap();
    assert_eq!(list, vec![(String::from("A"), 30), (String::from("B"), 20)]);
    assert_eq!(total, 50);
}

#[test]
fn full_mode_and_class_filter_keys() {
    let lines = ["0,A,\"one\"", "10,B,\"two\"", "40,A,\"three\"", "100,SYSTEM,\"shutdown\""];
    let mut full = plain_settings(0, 86_400_000);
    full.full = true;
    let mut reader = LogReader::new(vec![day(&lines)]);
    let (list, total) = compute_durations_at(&mut reader, &full, 200).unwrap();
    assert_eq!(
        list,
        vec![
            (String::from("A: three"), 60),
            (String::from("B: two"), 30),
            (String::from("A: one"), 10)
        ]
    );
    assert_eq!(total, 100);
    let mut only_a = plain_settings(0, 86_400_000);
    only_a.class_arg = String::from("A");
    let (list, total) = compute_durations_at(&mut reader, &only_a, 200).unwrap();
    assert_eq!(list, vec![(String::from("three"), 60), (String::from("one"), 10)]);
    assert_eq!(total, 100);
}

#[test]
fn ties_keep_first_appearance_order() {
    let lines = ["0,B,\"\"", "10,A,\"\"", "20,C,\"\"", "40,SYSTEM,\"idle\""];
    let mut reader = LogReader::new(vec![day(&lines)]);
    let settings = plain_settings(0, 86_400_000);
    let (list, _) = compute_durations_at(&mut reader, &settings, 50).unwrap();
    assert_eq!(
        list,
        vec![(String::from("C"), 20), (String::from("B"), 10), (String::from("A"), 10)]
    );
}

#[test]
fn aliases_rename_classes() {
    let lines = ["0,org.gnome.Nautilus,\"files\"", "10,SYSTEM,\"idle\""];
    let mut reader = LogReader::new(vec![day(&lines)]);
    let settings = Settings::new(Interval { start: 0, end: 86_400_000 });
    let (list, _) = compute_durations_at(&mut reader, &settings, 50).unwrap();
    assert_eq!(list, vec![(String::from("nautilus"), 10)]);
}

#[test]
fn bucket_cover_sums_to_total() {
    let lines = ["1000,A,\"\"", "3500,B,\"\"", "7250,SYSTEM,\"idle\"", "8000,A,\"\"", "9000,SYSTEM,\"shutdown\""];
    let settings = plain_settings(0, 10_000);
    let mut reader = LogReader::new(vec![day(&lines)]);
    let (_, total) = compute_durations_at(&mut reader, &settings, 9500).unwrap();
    let buckets = timeline_at(&mut reader, 10, &settings, None, 9500).unwrap();
    assert_eq!(buckets.len(), 10);
    let covered: i64 = buckets.iter().map(|b| b.2).sum();
    assert_eq!(covered as u64, total);
    assert_eq!(total, 7250);
}

#[test]
fn bucket_vote_and_edges() {
    let lines = ["0,A,\"\"", "300,B,\"\"", "1000,SYSTEM,\"idle\""];
    let settings = plain_settings(0, 2000);
    let mut reader = LogReader::new(vec![day(&lines)]);
    let buckets = timeline_at(&mut reader, 2, &settings, None, 5000).unwrap();
    assert_eq!(buckets[0], (String::from("B"), 400, 1000, true, true));
    // the idle close lands on the second bucket's left edge: zero time, left flag only
    assert_eq!(buckets[1], (String::from(""), 0, 0, true, false));
}

#[test]
fn multi_series_keeps_one_key() {
    let lines = ["0,A,\"\"", "300,B,\"\"", "1000,SYSTEM,\"idle\""];
    let mut settings = plain_settings(0, 1000);
    settings.multi_timeline = true;
    let label = String::from("A");
    let mut reader = LogReader::new(vec![day(&lines)]);
    let buckets = timeline_at(&mut reader, 1, &settings, Some(&label), 5000).unwrap();
    assert_eq!(buckets[0], (String::from("A"), 300, 300, true, false));
}

#[test]
fn session_before_window_is_clipped() {
    let lines = ["500,A,\"\"", "2500,SYSTEM,\"idle\""];
    let settings = plain_settings(1000, 3000);
    let mut reader = LogReader::new(vec![day(&lines)]);
    let buckets = timeline_at(&mut reader, 2, &settings, None, 5000).unwrap();
    assert_eq!(buckets[0], (String::from("A"), 1000, 1000, true, true));
    assert_eq!(buckets[1], (String::from("A"), 500, 500, true, false));
}

#[test]
fn replay_twice_is_identical() {
    let lines = ["1000,A,\"x\"", "3500,B,\"y\"", "7250,SYSTEM,\"idle\""];
    let settings = plain_settings(0, 10_000);
    let mut reader = LogReader::new(vec![day(&lines)]);
    let first = compute_durations_at(&mut reader, &settings, 9500).unwrap();
    let second = compute_durations_at(&mut reader, &settings, 9500).unwrap();
    assert_eq!(first, second);
    let t1 = timeline_at(&mut reader, 7, &settings, None, 9500).unwrap();
    let t2 = timeline_at(&mut reader, 7, &settings, None, 9500).unwrap();
    assert_eq!(t1, t2);
}

#[test]
fn missing_days_are_skipped() {
    let lines = ["0,A,\"\"", "10,SYSTEM,\"idle\""];
    let settings = plain_settings(0, 86_400_000);
    let mut with_gaps = LogReader::new(vec![DayFile::Missing, day(&lines), DayFile::Missing]);
    let mut without = LogReader::new(vec![day(&lines)]);
    assert_eq!(
        compute_durations_at(&mut with_gaps, &settings, 100),
        compute_durations_at(&mut without, &settings, 100)
    );
}

#[test]
fn no_existing_day_gives_empty_result() {
    let settings = plain_settings(0, 86_400_000);
    let mut reader = LogReader::new(vec![DayFile::Missing, DayFile::Missing]);
    assert!(reader.is_empty());
    assert!(!LogReader::new(vec![DayFile::Missing, DayFile::Unreadable]).is_empty());
    assert_eq!(compute_durations_at(&mut reader, &settings, 100), Ok((vec![], 0)));
    let mut empty = LogReader::new(vec![]);
    assert!(empty.is_empty());
    assert_eq!(compute_durations(&mut empty, &settings), Ok((vec![], 0)));
    let buckets = timeline(&mut empty, 4, &settings, None).unwrap();
    assert_eq!(buckets, vec![(String::new(), 0, 0, false, false); 4]);
}

#[test]
fn records_stitch_across_days() {
    let settings = plain_settings(0, 86_400_000);
    let mut reader = LogReader::new(vec![day(&["0,A,\"\""]), day(&["100,B,\"\"", "250,SYSTEM,\"shutdown\""])]);
    let (list, total) = compute_durations_at(&mut reader, &settings, 300).unwrap();
    assert_eq!(list, vec![(String::from("B"), 150), (String::from("A"), 100)]);
    assert_eq!(total, 250);
}

#[test]
fn reader_yields_records_then_ends() {
    let mut reader = LogReader::new(vec![day(&["1,a,\"b\""]), DayFile::Missing, day(&["2,c,\"d\""])]);
    assert_eq!(reader.next(), Some(Ok(vec![String::from("1"), String::from("a"), String::from("b")])));
    assert_eq!(reader.next(), Some(Ok(vec![String::from("2"), String::from("c"), String::from("d")])));
    assert_eq!(reader.next(), None);
    reader.reset();
    assert_eq!(reader.next(), Some(Ok(vec![String::from("1"), String::from("a"), String::from("b")])));
}

#[test]
fn bad_timestamp_is_parse_error() {
    let settings = plain_settings(0, 86_400_000);
    let mut reader = LogReader::new(vec![day(&["12x,A,\"\""])]);
    assert_eq!(compute_durations_at(&mut reader, &settings, 100), Err(ReadError::Parse));
    assert_eq!(timeline_at(&mut reader, 3, &settings, None, 100), Err(ReadError::Parse));
}

#[test]
fn ragged_table_is_parse_error() {
    let settings = plain_settings(0, 86_400_000);
    let mut reader = LogReader::new(vec![DayFile::Contents(b"timestamp,class,title\n1,A\n".to_vec())]);
    assert_eq!(compute_durations_at(&mut reader, &settings, 100), Err(ReadError::Parse));
}

#[test]
fn unreadable_day_is_io_error() {
    let settings = plain_settings(0, 86_400_000);
    let mut reader = LogReader::new(vec![day(&["1,A,\"\""]), DayFile::Unreadable]);
    assert_eq!(compute_durations_at(&mut reader, &settings, 100), Err(ReadError::Io));
}

#[test]
fn backwards_time_is_held_at_the_time_before() {
    let settings = plain_settings(0, 86_400_000);
    let mut reader = LogReader::new(vec![day(&["50,A,\"\"", "40,B,\"\""])]);
    assert_eq!(
        compute_durations_at(&mut reader, &settings, 100),
        Ok((vec![(String::from("B"), 50), (String::from("A"), 0)], 50))
    );
    let mut late = LogReader::new(vec![day(&["50,A,\"\""])]);
    assert_eq!(compute_durations_at(&mut late, &settings, 10), Ok((vec![(String::from("A"), 0)], 0)));
}

#[test]
fn early_end_is_fine_when_nothing_is_open() {
    let settings = plain_settings(0, 86_400_000);
    let mut reader = LogReader::new(vec![day(&["50,A,\"\"", "80,SYSTEM,\"idle\""])]);
    assert_eq!(compute_durations_at(&mut reader, &settings, 10), Ok((vec![(String::from("A"), 30)], 30)));
}

#[test]
fn class_filter_counts_total_but_not_other_keys() {
    let lines = ["0,A,\"one\"", "10,B,\"two\"", "40,SYSTEM,\"idle\""];
    let mut settings = plain_settings(0, 100);
    settings.class_arg = String::from("B");
    let mut reader = LogReader::new(vec![day(&lines)]);
    let (list, total) = compute_durations_at(&mut reader, &settings, 50).unwrap();
    assert_eq!(list, vec![(String::from("two"), 30)]);
    assert_eq!(total, 40);
    let buckets = timeline_at(&mut reader, 1, &settings, None, 50).unwrap();
    assert_eq!(buckets[0], (String::from("two"), 30, 30, true, false));
}
