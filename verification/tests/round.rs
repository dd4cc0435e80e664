use aptos_indexer::pg_tests::should_skip_pg_tests;
use aptos_indexer::processing_result::{EndpointTransaction, ProcessingResult};
use aptos_indexer::round::{check_total, gather};
use aptos_indexer::sort::sort_by_version;
use aptos_indexer::tasks::record_joined;

// The timestamp tells reports of one version apart.
fn report(version: u64, timestamp: u64) -> EndpointTransaction {
    EndpointTransaction { version, timestamp, events: vec![], resources: vec![], changes: vec![] }
}

fn reports(of: &[(u64, u64)]) -> Vec<EndpointTransaction> {
    of.iter().map(|r| report(r.0, r.1)).collect()
}

fn order(reports: &[EndpointTransaction]) -> Vec<(u64, u64)> {
    reports.iter().map(|r| (r.version, r.timestamp)).collect()
}

type Batch = (u64, Option<ProcessingResult<EndpointTransaction>>);

fn batch(num: u64, of: &[(u64, u64)], start_version: u64, end_version: u64) -> Batch {
    (num, Some(ProcessingResult { transactions: reports(of), start_version, end_version }))
}

#[test]
fn sort_is_by_version_and_stable() {
    let sorted = sort_by_version(reports(&[(3, 0), (1, 1), (3, 2), (2, 3), (1, 4), (3, 5)]));
    assert_eq!(order(&sorted), vec![(1, 1), (1, 4), (2, 3), (3, 0), (3, 2), (3, 5)]);
}

#[test]
fn sort_of_few() {
    assert!(sort_by_version(reports(&[])).is_empty());
    assert_eq!(order(&sort_by_version(reports(&[(4, 2)]))), vec![(4, 2)]);
    assert_eq!(order(&sort_by_version(reports(&[(4, 2), (4, 1)]))), vec![(4, 2), (4, 1)]);
    assert_eq!(order(&sort_by_version(reports(&[(5, 2), (4, 1)]))), vec![(4, 1), (5, 2)]);
}

#[test]
fn sort_agrees_with_a_stable_sort_of_std() {
    let mut state: u64 = 1;
    for len in 0..60 {
        let mut of: Vec<(u64, u64)> = vec![];
        for i in 0..len {
            state = state.wrapping_mul(6364136223846793005).wrapping_add(1442695040888963407);
            of.push(((state >> 33) % 12, i));
        }
        let sorted = sort_by_version(reports(&of));
        of.sort_by(|a, b| a.0.cmp(&b.0));
        assert_eq!(order(&sorted), of);
    }
}

#[test]
fn gathers_batches_into_one_request() {
    let round = gather(vec![
        batch(5, &[(14, 0), (12, 1)], 10, 14),
        (0, None),
        batch(3, &[(3, 2), (12, 3)], 2, 4),
        batch(1, &[], 7, 7),
    ]);
    assert_eq!(
        order(&round.request.unwrap().transactions),
        vec![(3, 2), (12, 1), (12, 3), (14, 0)]
    );
    assert_eq!(round.batch_start_version, 2);
    assert_eq!(round.batch_end_version, 14);
    assert_eq!(round.num_res, 9);
}

#[test]
fn nothing_to_report_is_no_request() {
    let round = gather(vec![batch(5, &[], 10, 14), batch(2, &[], 15, 16)]);
    assert!(round.request.is_none());
    assert_eq!(round.batch_start_version, 10);
    assert_eq!(round.batch_end_version, 16);
    assert_eq!(round.num_res, 7);
}

#[test]
fn empty_batches_leave_the_bounds() {
    let batches: Vec<Batch> = vec![(9, None), (0, None)];
    let round = gather(batches);
    assert!(round.request.is_none());
    assert_eq!(round.batch_start_version, u64::MAX);
    assert_eq!(round.batch_end_version, 0);
    assert_eq!(round.num_res, 0);
    let batches: Vec<Batch> = vec![];
    let round = gather(batches);
    assert!(round.request.is_none());
    assert_eq!(round.batch_start_version, u64::MAX);
    assert_eq!(round.num_res, 0);
}

#[test]
fn order_of_tasks_makes_no_difference() {
    let one = gather(vec![batch(2, &[(1, 0), (2, 0)], 1, 2), batch(2, &[(3, 0), (4, 0)], 3, 4)]);
    let two = gather(vec![batch(2, &[(3, 0), (4, 0)], 3, 4), batch(2, &[(1, 0), (2, 0)], 1, 2)]);
    assert_eq!(
        order(&one.request.unwrap().transactions),
        order(&two.request.unwrap().transactions)
    );
    assert_eq!(one.batch_start_version, two.batch_start_version);
    assert_eq!(one.batch_end_version, two.batch_end_version);
    assert!(one.batch_start_version <= one.batch_end_version);
}

#[test]
fn count_of_transactions_may_not_overflow() {
    assert!(check_total(&vec![batch(u64::MAX, &[], 1, 2), (1, None), batch(0, &[], 1, 2)]));
    assert!(!check_total(&vec![batch(u64::MAX, &[], 1, 2), batch(1, &[], 1, 2)]));
    let none: Vec<Batch> = vec![];
    assert!(check_total(&none));
}

#[test]
fn joined_tasks_are_recorded_in_order() {
    let mut results: Vec<u32> = vec![];
    assert_eq!(record_joined::<u32, String>(&mut results, Ok(4)), None);
    assert_eq!(record_joined::<u32, String>(&mut results, Ok(2)), None);
    assert_eq!(record_joined(&mut results, Err("gone".to_string())), Some("gone".to_string()));
    assert_eq!(results, vec![4, 2]);
}

#[test]
fn pg_tests_need_a_database() {
    assert!(should_skip_pg_tests(false, false));
    assert!(!should_skip_pg_tests(false, true));
    assert!(!should_skip_pg_tests(true, true));
}
