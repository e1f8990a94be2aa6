use bloodpressure::reading::Reading;
use bloodpressure::report::{describe, format_line, report, sort_newest_first};
use bloodpressure::store::{encode_row, load_all};
use std::cmp::Ordering;

fn readings(n: i64) -> Vec<Reading> {
    (0..n).map(|i| Reading::new((i * 37) % 11, 100 + i as u32, 70, 60)).collect()
}

#[test]
fn compare_ignores_values() {
    let a = Reading::new(5, 120, 80, 60);
    let b = Reading::new(5, 140, 90, 70);
    let c = Reading::new(6, 100, 60, 50);
    assert_eq!(a.compare_by_time(&b), Ordering::Equal);
    assert_eq!(a.compare_by_time(&c), Ordering::Less);
    assert_eq!(c.compare_by_time(&a), Ordering::Greater);
}

#[test]
fn later_reading_comes_first() {
    let a = Reading::new(10, 120, 80, 60);
    let b = Reading::new(20, 130, 85, 65);
    assert_eq!(report(&vec![a, b], 10), vec![b, a]);
    assert_eq!(report(&vec![b, a], 10), vec![b, a]);
}

#[test]
fn sort_puts_newest_first_and_keeps_all() {
    let rs = readings(9);
    let sorted = sort_newest_first(&rs);
    assert_eq!(sorted.len(), rs.len());
    for w in sorted.windows(2) {
        assert!(w[0].timestamp >= w[1].timestamp);
    }
    for r in &rs {
        assert_eq!(
            rs.iter().filter(|x| *x == r).count(),
            sorted.iter().filter(|x| *x == r).count()
        );
    }
}

#[test]
fn limit_bounds_report_length() {
    let rs = readings(5);
    assert_eq!(report(&rs, 3).len(), 3);
    assert_eq!(report(&rs, 5).len(), 5);
    assert_eq!(report(&rs, 10).len(), 5);
    assert_eq!(report(&rs, 0).len(), 0);
    assert_eq!(report(&vec![], 10).len(), 0);
}

#[test]
fn limited_report_holds_newest() {
    let rs = vec![
        Reading::new(3, 1, 1, 1),
        Reading::new(9, 2, 2, 2),
        Reading::new(1, 3, 3, 3),
        Reading::new(7, 4, 4, 4),
    ];
    assert_eq!(report(&rs, 2), vec![rs[1], rs[3]]);
}

#[test]
fn two_recordings_scenario() {
    let first = Reading::new(1700000000, 120, 80, 60);
    let second = Reading::new(1700003600, 130, 85, 65);
    let mut text = encode_row(&first);
    text.extend(encode_row(&second));
    let stored = load_all(Some(text)).unwrap();
    assert_eq!(report(&stored, 1), vec![second]);
    assert_eq!(report(&stored, 10), vec![second, first]);
    let line = String::from_utf8(describe(&report(&stored, 1)[0]).unwrap()).unwrap();
    assert!(line.ends_with("\tBP: 130/85\tPulse: 65"));
}

#[test]
fn report_line_layout() {
    let r = Reading::new(0, 120, 80, 60);
    assert_eq!(
        format_line(b"2024-01-02 03:04pm", &r),
        b"2024-01-02 03:04pm\tBP: 120/80\tPulse: 60".to_vec()
    );
}

#[test]
fn describe_shows_local_time() {
    let line = String::from_utf8(describe(&Reading::new(1700000000, 120, 80, 60)).unwrap()).unwrap();
    let (time, rest) = line.split_once('\t').unwrap();
    assert_eq!(rest, "BP: 120/80\tPulse: 60");
    assert_eq!(time.len(), "2023-11-14 10:13pm".len());
    assert!(time.starts_with("2023-11-1"));
    assert!(time.ends_with("am") || time.ends_with("pm"));
}

#[test]
fn describe_refuses_unrepresentable_instant() {
    assert_eq!(describe(&Reading::new(i64::MAX, 1, 2, 3)), None);
}
