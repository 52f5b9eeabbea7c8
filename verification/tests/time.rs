use voxel_rs::time::{AverageTimeCounter, BreakdownCounter};

#[test]
fn average_time_of_recent_durations() {
    let mut c = AverageTimeCounter::new();
    assert_eq!(c.average_time_micros(), 0);
    c.add_time(10);
    c.add_time(20);
    assert_eq!(c.recent_count(), 2);
    assert_eq!(c.average_time_micros(), 15);
    c.add_time(1);
    assert_eq!(c.average_time_micros(), 10);
}

#[test]
fn breakdown_parts_in_order() {
    let mut b = BreakdownCounter::new();
    b.start_frame();
    b.record_part("first".to_string());
    b.record_part("second".to_string());
    let (names, totals) = b.take_parts();
    assert_eq!(names, vec!["first".to_string(), "second".to_string()]);
    assert_eq!(totals.len(), 2);
    let (names, totals_again) = b.take_parts();
    assert!(names.is_empty());
    assert_eq!(totals, totals_again);
}

#[test]
fn breakdown_totals_grow_over_frames() {
    let mut b = BreakdownCounter::new();
    b.start_frame();
    b.record_part("a".to_string());
    let (_, t1) = b.take_parts();
    b.start_frame();
    let waited = std::time::Instant::now();
    while waited.elapsed().as_micros() < 2000 {}
    b.record_part("a".to_string());
    let (names, t2) = b.take_parts();
    assert_eq!(names, vec!["a".to_string()]);
    assert_eq!(t2.len(), 1);
    assert!(t2[0] >= t1[0] + 2000);
}

#[test]
fn average_counter_drops_expired_prefix() {
    let mut c = AverageTimeCounter::new();
    c.add_time(5);
    c.add_time(7);
    c.add_time(9);
    assert_eq!(c.total_micros(), 21);
    // the oldest two are 12 and 10 seconds old, the last one 3
    c.drop_expired(&vec![12, 10, 3]);
    assert_eq!(c.total_micros(), 9);
    assert_eq!(c.recent_count(), 1);
    assert_eq!(c.average_time_micros(), 9);
}

#[test]
fn average_counter_keeps_everything_after_a_young_sample() {
    let mut c = AverageTimeCounter::new();
    c.add_time(5);
    c.add_time(7);
    c.add_time(9);
    // a young sample stops the dropping, even before older ones
    c.drop_expired(&vec![3, 20, 20]);
    assert_eq!(c.total_micros(), 21);
    c.drop_expired(&vec![10, 10, 10]);
    assert_eq!(c.total_micros(), 0);
    assert_eq!(c.average_time_micros(), 0);
}

#[test]
fn breakdown_counter_drops_expired_frames() {
    let mut c = BreakdownCounter::new();
    c.start_frame();
    c.record_part("a".to_string());
    c.start_frame();
    c.record_part("a".to_string());
    let before = c.largest_total();
    // both frames expired: the totals fall back to 0
    c.drop_expired(&vec![11, 10]);
    assert_eq!(c.largest_total(), 0);
    assert!(before >= c.largest_total());
    c.start_frame();
    c.record_part("b".to_string());
    c.drop_expired(&vec![2]);
    let (names, totals) = c.take_parts();
    assert_eq!(names, vec!["b".to_string()]);
    assert_eq!(totals.len(), 1);
}
