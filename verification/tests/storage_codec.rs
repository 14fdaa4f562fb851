use schedbot::codec::{decode_schedule, encode_schedule};
use schedbot::entry::Entry;
use schedbot::parse::parse_schedule;
use schedbot::storage::{redis_key, FsStorage};
use schedbot::time::UtcTime;

fn lines(v: &[&str]) -> Vec<String> {
    v.iter().map(|s| s.to_string()).collect()
}

fn entries_equal(a: &[Entry], b: &[Entry]) -> bool {
    a.len() == b.len()
        && a.iter().zip(b.iter()).all(|(x, y)| {
            x.datestr == y.datestr && x.label == y.label && x.date == y.date
        })
}

#[test]
fn stored_form_is_exactly_the_documented_record() {
    let s = parse_schedule(&lines(&["25/12 8AM 00:00 - Stream"]), 2024).unwrap();
    let blob = encode_schedule(&s);
    assert_eq!(
        blob,
        "[{\"datestr\":\"25/12 8AM 00:00\",\"label\":\"Stream\",\"date\":\"2024-12-24T22:00:00Z\"}]"
    );
}

#[test]
fn set_then_get_returns_the_same_schedule() {
    let s = parse_schedule(
        &lines(&["26/12 9PM 00:00 - Later", "25/12 8AM 00:00 - Sooner"]),
        2024,
    )
    .unwrap();
    let blob = encode_schedule(&s);
    let back = decode_schedule(&blob).unwrap();
    assert!(entries_equal(&s, &back));
}

#[test]
fn round_trip_keeps_quotes_and_backslashes() {
    let s = parse_schedule(
        &lines(&["25/12 8AM 00:00 - say \"hi\" \\ there"]),
        2024,
    )
    .unwrap();
    assert_eq!(s[0].label, "say \"hi\" \\ there");
    let blob = encode_schedule(&s);
    let back = decode_schedule(&blob).unwrap();
    assert!(entries_equal(&s, &back));
}

#[test]
fn retrieved_schedule_is_still_sorted() {
    let s = parse_schedule(
        &lines(&[
            "26/12 9PM 00:00 - Third",
            "25/12 8AM 00:00 - First",
            "25/12 9AM 00:00 - Second",
        ]),
        2024,
    )
    .unwrap();
    let back = decode_schedule(&encode_schedule(&s)).unwrap();
    let ts: Vec<i64> = back.iter().map(|e| e.date.unwrap().timestamp()).collect();
    assert!(ts.windows(2).all(|w| w[0] <= w[1]));
}

#[test]
fn corrupt_blob_reads_as_absent() {
    assert!(decode_schedule("not a schedule").is_none());
    assert!(decode_schedule("").is_none());
    assert!(decode_schedule("[{\"datestr\":\"x\"}]").is_none());
    assert!(decode_schedule("[{\"datestr\":\"a\",\"label\":\"b\",\"date\":\"2024-13-01T00:00:00Z\"}]").is_none());
}

#[test]
fn empty_list_blob_decodes_to_empty_schedule() {
    let r = decode_schedule("[]").unwrap();
    assert!(r.is_empty());
}

#[test]
fn escaped_codes_in_a_blob_are_read_back() {
    let blob = "[{\"datestr\":\"d\",\"label\":\"a\\nb\\t\\\"c\\\"\",\"date\":\"2024-01-02T03:04:05Z\"}]";
    let r = decode_schedule(blob).unwrap();
    assert_eq!(r[0].label, "a\nb\t\"c\"");
    assert_eq!(
        r[0].date.unwrap(),
        UtcTime { year: 2024, month: 1, day: 2, hour: 3, minute: 4, second: 5 }
    );
}

#[test]
fn schedule_file_name_is_derived_from_the_group() {
    let fs = FsStorage::new("/var/schedules".to_string());
    assert_eq!(fs.schedule_path("123456"), "/var/schedules/schedule_123456.json");
}

#[test]
fn store_key_is_derived_from_the_group() {
    assert_eq!(redis_key("123456"), "schedule:123456");
}
