use schedbot::entry::Entry;
use schedbot::parse::{dropped_lines, parse_schedule, DropReason};
use schedbot::time::UtcTime;

fn lines(v: &[&str]) -> Vec<String> {
    v.iter().map(|s| s.to_string()).collect()
}

#[test]
fn wellformed_line_resolves_with_offset() {
    let r = parse_schedule(&lines(&["25/12 8AM 00:00 - Stream"]), 2024).unwrap();
    assert_eq!(r.len(), 1);
    assert_eq!(r[0].datestr, "25/12 8AM 00:00");
    assert_eq!(r[0].label, "Stream");
    let t = r[0].date.unwrap();
    assert_eq!(
        t,
        UtcTime { year: 2024, month: 12, day: 24, hour: 22, minute: 0, second: 0 }
    );
    assert_eq!(t.timestamp(), 1735077600);
}

#[test]
fn minute_and_second_fields_are_kept() {
    let r = parse_schedule(&lines(&["5/6 7PM 08:09 - Raid night"]), 2024).unwrap();
    let t = r[0].date.unwrap();
    assert_eq!(
        t,
        UtcTime { year: 2024, month: 6, day: 5, hour: 9, minute: 8, second: 9 }
    );
    assert_eq!(t.timestamp(), 1717578489);
}

#[test]
fn twelve_am_rolls_into_previous_year() {
    let r = parse_schedule(&lines(&["1/1 12AM 00:00 - New year"]), 2024).unwrap();
    let t = r[0].date.unwrap();
    assert_eq!(
        t,
        UtcTime { year: 2023, month: 12, day: 31, hour: 14, minute: 0, second: 0 }
    );
    assert_eq!(t.timestamp(), 1704031200);
}

#[test]
fn leap_day_depends_on_year() {
    assert!(parse_schedule(&lines(&["29/2 8AM 00:00 - Leap"]), 2024).is_some());
    assert!(parse_schedule(&lines(&["29/2 8AM 00:00 - Leap"]), 2023).is_none());
}

#[test]
fn bad_line_is_dropped_without_hurting_others() {
    let r = parse_schedule(&lines(&["bad line", "25/12 8AM 00:00 - Stream"]), 2024).unwrap();
    assert_eq!(r.len(), 1);
    assert_eq!(r[0].label, "Stream");
}

#[test]
fn all_invalid_batch_is_distinct_from_empty_schedule() {
    let r = parse_schedule(&lines(&["bad line 1", "bad line 2"]), 2024);
    assert!(r.is_none());
}

#[test]
fn empty_batch_yields_nothing() {
    assert!(parse_schedule(&lines(&[]), 2024).is_none());
}

#[test]
fn line_with_two_delimiters_is_dropped() {
    let r = parse_schedule(&lines(&["25/12 8AM 00:00 - a - b"]), 2024);
    assert!(r.is_none());
}

#[test]
fn out_of_range_fields_are_dropped() {
    assert!(parse_schedule(&lines(&["32/12 8AM 00:00 - Day"]), 2024).is_none());
    assert!(parse_schedule(&lines(&["25/13 8AM 00:00 - Month"]), 2024).is_none());
    assert!(parse_schedule(&lines(&["25/12 13AM 00:00 - Hour"]), 2024).is_none());
    assert!(parse_schedule(&lines(&["25/12 8AM 60:00 - Minute"]), 2024).is_none());
    assert!(parse_schedule(&lines(&["25/12 8AM 00:60 - Second"]), 2024).is_none());
    assert!(parse_schedule(&lines(&["25/12 8XM 00:00 - Marker"]), 2024).is_none());
}

#[test]
fn parser_sorts_ascending_whatever_the_input_order() {
    let r = parse_schedule(
        &lines(&[
            "26/12 9PM 00:00 - Third",
            "25/12 8AM 00:00 - First",
            "25/12 9AM 00:00 - Second",
        ]),
        2024,
    )
    .unwrap();
    let labels: Vec<&str> = r.iter().map(|e| e.label.as_str()).collect();
    assert_eq!(labels, vec!["First", "Second", "Third"]);
    let ts: Vec<i64> = r.iter().map(|e| e.date.unwrap().timestamp()).collect();
    assert!(ts[0] <= ts[1] && ts[1] <= ts[2]);
}

#[test]
fn entry_new_starts_unresolved() {
    let e = Entry::new("25/12 8AM 00:00".to_string(), "Stream".to_string());
    assert_eq!(e.datestr, "25/12 8AM 00:00");
    assert_eq!(e.label, "Stream");
    assert!(e.date.is_none());
}

#[test]
fn dropped_lines_carry_their_reasons() {
    let batch = lines(&[
        "no delimiter here",
        "25/12 8AM 00:00 - Kept",
        "31/2 8AM 00:00 - Bad date",
    ]);
    let dropped = dropped_lines(&batch, 2024);
    assert_eq!(dropped.len(), 2);
    assert_eq!(dropped[0].text, "no delimiter here");
    assert_eq!(dropped[0].reason, DropReason::NoDelimiter);
    assert_eq!(dropped[1].text, "31/2 8AM 00:00 - Bad date");
    assert_eq!(dropped[1].reason, DropReason::BadDate);
    assert!(dropped_lines(&lines(&["25/12 8AM 00:00 - Kept"]), 2024).is_empty());
}

#[test]
fn equal_batches_parse_to_equal_schedules() {
    let batch = lines(&[
        "25/12 9AM 00:00 - Tie one",
        "25/12 8AM 00:00 - Early",
        "25/12 9AM 00:00 - Tie two",
    ]);
    let a = parse_schedule(&batch, 2024).unwrap();
    let b = parse_schedule(&batch, 2024).unwrap();
    let la: Vec<&str> = a.iter().map(|e| e.label.as_str()).collect();
    let lb: Vec<&str> = b.iter().map(|e| e.label.as_str()).collect();
    assert_eq!(la, lb);
    assert_eq!(la, vec!["Early", "Tie one", "Tie two"]);
}

#[test]
fn lowercase_ampm_marker_is_accepted() {
    let r = parse_schedule(&lines(&["25/12 8am 00:00 - Stream"]), 2024).unwrap();
    assert_eq!(r[0].date.unwrap().hour, 22);
}
