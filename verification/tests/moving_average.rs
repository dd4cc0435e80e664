use aptos_indexer::http::moving_average::{Average, MovingAverage};
use aptos_indexer::http::runtime::{IndexingLoop, Progress, WINDOW_MILLIS};

fn average(sum: u64, elapsed_millis: u64) -> Option<Average> {
    Some(Average { sum, elapsed_millis })
}

#[test]
fn fewer_than_two_readings_have_no_average() {
    let mut ma = MovingAverage::new(10_000);
    assert_eq!(ma.avg(), None);
    assert_eq!(ma.tick(1_000, 7), None);
    assert_eq!(ma.avg(), None);
}

#[test]
fn average_is_sum_over_elapsed_time() {
    let mut ma = MovingAverage::new(10_000);
    ma.tick(1_000, 7);
    assert_eq!(ma.tick(3_000, 5), average(12, 2_000));
    assert_eq!(ma.avg(), average(12, 2_000));
}

#[test]
fn readings_at_one_time_have_no_elapsed_time() {
    let mut ma = MovingAverage::new(10_000);
    ma.tick(1_000, 7);
    assert_eq!(ma.tick(1_000, 5), average(12, 0));
}

#[test]
fn stale_readings_leave_the_window() {
    let mut ma = MovingAverage::new(10);
    ma.tick(5, 3);
    ma.tick(7, 4);
    // 15 is exactly the window after 5, which stays.
    assert_eq!(ma.tick(15, 1), average(8, 10));
    // 16 is one beyond.
    assert_eq!(ma.tick(16, 2), average(7, 9));
    // All but the last reading are gone.
    assert_eq!(ma.tick(100, 9), None);
    assert_eq!(ma.tick(101, 1), average(10, 1));
}

#[test]
fn window_holds_just_the_recent_readings() {
    let readings: [(u64, u64); 6] = [(0, 1), (4, 2), (4, 4), (9, 8), (14, 16), (15, 32)];
    let window = 6;
    let mut ma = MovingAverage::new(window);
    for (i, &(now, value)) in readings.iter().enumerate() {
        let got = ma.tick(now, value);
        let kept: Vec<(u64, u64)> =
            readings[..=i].iter().copied().filter(|r| now - r.0 <= window).collect();
        if kept.len() < 2 {
            assert_eq!(got, None);
        } else {
            let sum: u64 = kept.iter().map(|r| r.1).sum();
            assert_eq!(got, average(sum, now - kept[0].0));
            assert!(now - kept[0].0 <= window);
        }
    }
}

#[test]
fn empty_window_keeps_the_present() {
    let mut ma = MovingAverage::new(0);
    ma.tick(1, 1);
    assert_eq!(ma.tick(2, 2), None);
    assert_eq!(ma.tick(2, 3), average(5, 0));
}

#[test]
fn clock_may_not_run_behind_the_oldest_reading() {
    let mut ma = MovingAverage::new(10);
    ma.tick(5, 1);
    ma.tick(9, 1);
    assert!(ma.can_tick(7, 1));
    assert!(!ma.can_tick(4, 1));
    assert_eq!(ma.try_tick(4, 1), None);
    assert_eq!(ma.avg(), average(2, 4));
    assert_eq!(ma.try_tick(7, 1), Some(average(3, 2)));
}

#[test]
fn oldest_reading_that_stays_may_not_be_from_the_future() {
    let mut ma = MovingAverage::new(10);
    ma.tick(0, 1);
    ma.tick(30, 1);
    ma.tick(40, 1);
    assert!(!ma.can_tick(29, 1));
    assert!(ma.can_tick(30, 1));
    let mut ma = MovingAverage::new(100);
    ma.tick(0, 1);
    ma.tick(90, 1);
    ma.tick(80, 1);
    // 0 leaves the window of 150, and 90 comes next.
    assert_eq!(ma.tick(150, 1), average(3, 60));
    // 90 leaves the window that ends at 195, 80 with it.
    assert_eq!(ma.tick(195, 1), average(2, 45));
}

#[test]
fn sum_may_not_overflow() {
    let mut ma = MovingAverage::new(10);
    ma.tick(0, u64::MAX);
    assert!(!ma.can_tick(1, 1));
    assert!(ma.can_tick(1, 0));
    assert_eq!(ma.try_tick(100, 1), None);
    assert_eq!(ma.try_tick(100, 0), Some(None));
    assert!(ma.can_tick(101, u64::MAX));
}

#[test]
fn tick_now_goes_by_the_clock() {
    let mut ma = MovingAverage::new(60_000);
    // 2020-09-13T12:26:40Z is past; the year 2286 is not here yet.
    assert!(ma.tick_now(3));
    assert!(!ma.can_tick(1_600_000_000_000, 1));
    assert!(ma.can_tick(10_000_000_000_000, 1));
    assert!(ma.tick_now(4));
    let now = ma.avg().unwrap();
    assert_eq!(now.sum, 7);
    assert!(now.elapsed_millis < 60_000);
    assert!(!ma.tick_now(u64::MAX));
    assert_eq!(ma.avg(), Some(now));
}

#[test]
fn progress_is_reported_at_multiples() {
    let mut indexing = IndexingLoop::new(10);
    assert_eq!(indexing.finish_round_at(1, 9), None);
    assert_eq!(
        indexing.finish_round_at(2, 1),
        Some(Progress { versions_processed: 10, average: average(10, 1) })
    );
    assert_eq!(indexing.finish_round_at(3, 0), None);
    assert_eq!(indexing.finish_round_at(4, 9), None);
    assert_eq!(
        indexing.finish_round_at(5, 25),
        Some(Progress { versions_processed: 44, average: average(44, 4) })
    );
    assert_eq!(
        indexing.finish_round_at(6 + WINDOW_MILLIS, 6),
        Some(Progress { versions_processed: 50, average: None })
    );
}

#[test]
fn progress_is_never_reported_every_zero() {
    let mut indexing = IndexingLoop::new(0);
    for now in 0..20 {
        assert_eq!(indexing.finish_round_at(now, 1_000), None);
    }
}

#[test]
fn progress_is_reported_every_round_that_counts_with_one() {
    let mut indexing = IndexingLoop::new(1);
    assert_eq!(indexing.finish_round(0), Some(None));
    let progress = indexing.finish_round(2).unwrap().unwrap();
    assert_eq!(progress.versions_processed, 2);
    assert_eq!(progress.average.unwrap().sum, 2);
}

#[test]
fn round_that_overflows_the_count_is_not_counted() {
    let mut indexing = IndexingLoop::new(1);
    indexing.finish_round_at(0, u64::MAX);
    assert!(!indexing.can_finish_round_at(20_000, 1));
    assert!(indexing.can_finish_round_at(20_000, 0));
    assert_eq!(indexing.finish_round(1), None);
    assert_eq!(indexing.finish_round(0), Some(None));
    // The clock stands before the last reading.
    assert!(!indexing.can_finish_round_at(1, 0));
}
