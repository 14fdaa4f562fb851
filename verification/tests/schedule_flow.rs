use schedbot::clock::{next_entry_now, parse_schedule_now, parse_schedule_now_logged};
use schedbot::parse::DropReason;
use schedbot::extract::extract_schedule_lines;
use schedbot::fmt::{format_entry, format_schedule};
use schedbot::parse::parse_schedule;
use schedbot::query::next_entry;

fn lines(v: &[&str]) -> Vec<String> {
    v.iter().map(|s| s.to_string()).collect()
}

#[test]
fn next_event_between_first_and_second_is_the_second() {
    let s = parse_schedule(
        &lines(&[
            "25/12 8AM 00:00 - First",
            "25/12 9AM 00:00 - Second",
            "25/12 10AM 00:00 - Third",
        ]),
        2024,
    )
    .unwrap();
    let t1 = s[0].date.unwrap().timestamp();
    let t2 = s[1].date.unwrap().timestamp();
    let now = (t1 + t2) / 2;
    let i = next_entry(&s, now).unwrap();
    assert_eq!(i, 1);
    assert_eq!(s[i].label, "Second");
}

#[test]
fn next_event_after_the_last_is_nothing_upcoming() {
    let s = parse_schedule(
        &lines(&[
            "25/12 8AM 00:00 - First",
            "25/12 9AM 00:00 - Second",
            "25/12 10AM 00:00 - Third",
        ]),
        2024,
    )
    .unwrap();
    let t3 = s[2].date.unwrap().timestamp();
    assert!(next_entry(&s, t3).is_none());
    assert!(next_entry(&s, t3 + 1).is_none());
}

#[test]
fn next_event_is_strictly_after_now() {
    let s = parse_schedule(&lines(&["25/12 8AM 00:00 - Only"]), 2024).unwrap();
    let t = s[0].date.unwrap().timestamp();
    assert!(next_entry(&s, t - 1).is_some());
    assert!(next_entry(&s, t).is_none());
}

#[test]
fn entry_renders_as_timestamp_tag_and_label() {
    let s = parse_schedule(&lines(&["25/12 8AM 00:00 - Stream"]), 2024).unwrap();
    assert_eq!(format_entry(&s[0]), "<t:1735077600:F>: Stream");
}

#[test]
fn schedule_summary_lists_each_entry() {
    let s = parse_schedule(
        &lines(&["25/12 8AM 00:00 - First", "26/12 9PM 00:00 - Second"]),
        2024,
    )
    .unwrap();
    assert_eq!(
        format_schedule(&s),
        "Found these entries:\n<t:1735077600:F>: First\n<t:1735210800:F>: Second"
    );
}

#[test]
fn listing_lines_come_after_the_marker_until_a_blank() {
    let content = "hello\nthe **schedule** for this week\n25/12 8AM 00:00 - First\n26/12 9PM 00:00 - Second\n   \ntrailing chatter";
    let got = extract_schedule_lines(content);
    assert_eq!(
        got,
        vec!["25/12 8AM 00:00 - First".to_string(), "26/12 9PM 00:00 - Second".to_string()]
    );
}

#[test]
fn message_without_marker_has_no_listing_lines() {
    assert!(extract_schedule_lines("no marker here\n1/1 1AM 0:0 - x").is_empty());
}

#[test]
fn listing_runs_to_the_end_when_no_blank_follows() {
    let content = "**schedule**\n25/12 8AM 00:00 - Only";
    let got = extract_schedule_lines(content);
    assert_eq!(got, vec!["25/12 8AM 00:00 - Only".to_string()]);
}

#[test]
fn clock_based_parse_accepts_a_date_valid_in_every_year() {
    let r = parse_schedule_now(&lines(&["25/12 8AM 00:00 - Stream"])).unwrap();
    assert_eq!(r.len(), 1);
    assert_eq!(r[0].label, "Stream");
}

#[test]
fn clock_based_parse_reports_what_it_dropped() {
    let batch = lines(&["not a listing line", "25/12 8AM 00:00 - Stream"]);
    let (parsed, dropped) = parse_schedule_now_logged(&batch);
    let schedule = parsed.unwrap();
    assert_eq!(schedule.len(), 1);
    assert_eq!(schedule[0].label, "Stream");
    assert_eq!(dropped.len(), 1);
    assert_eq!(dropped[0].text, "not a listing line");
    assert_eq!(dropped[0].reason, DropReason::NoDelimiter);
}

#[test]
fn clock_based_next_event_sees_the_far_future_and_not_the_far_past() {
    let future = parse_schedule(&lines(&["25/12 8AM 00:00 - Far"]), 9999).unwrap();
    assert_eq!(next_entry_now(&future), Some(0));
    let past = parse_schedule(&lines(&["25/12 8AM 00:00 - Long gone"]), 2).unwrap();
    assert!(next_entry_now(&past).is_none());
}
