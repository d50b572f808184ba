use vote_credits::collate::{collate, comparison_table, diff_pct, CollateError, PeriodRow};
use vote_credits::ranking::{rank_descending, DualRanking};
use vote_credits::scoring::FIXED_ONE;

fn prow(name: &str, validators: u64, normal_credits: u64, latency: Option<u64>, normal: u64, timely: u64) -> PeriodRow {
    PeriodRow {
        name: name.as_bytes().to_vec(),
        total_validators: validators,
        total_normal_credits: normal_credits,
        total_timely_credits: normal_credits / 2,
        avg_latency: latency,
        normal_pct: normal,
        timely_pct: timely,
    }
}

#[test]
fn collation_averages_and_weights_latency() {
    let rows = vec![
        prow("a", 2, 100, Some(1 * FIXED_ONE), FIXED_ONE, FIXED_ONE / 2),
        prow("b", 1, 10, Some(5 * FIXED_ONE), FIXED_ONE / 4, FIXED_ONE),
        prow("a", 4, 300, Some(3 * FIXED_ONE), FIXED_ONE / 2, FIXED_ONE / 2),
    ];
    let cs = collate(&rows).unwrap();
    assert_eq!(cs.len(), 2);
    let a = &cs[0];
    assert_eq!(a.name, b"a".to_vec());
    assert_eq!(a.total_periods, 2);
    assert_eq!(a.total_validators, 3);
    assert_eq!(a.normal_pct, 3 * FIXED_ONE / 4);
    assert_eq!(a.timely_pct, FIXED_ONE / 2);
    // (1 * 100 + 3 * 300) / 400 = 2.5, not the simple average 2
    assert_eq!(a.avg_latency, Some(5 * FIXED_ONE / 2));
    assert_eq!(a.total_normal_credits, 400);
    assert_eq!(a.total_timely_credits, 200);
    assert_eq!(cs[1].avg_latency, Some(5 * FIXED_ONE));
}

#[test]
fn undefined_latency_stays_undefined() {
    let rows = vec![prow("a", 1, 100, Some(FIXED_ONE), 1, 1), prow("a", 1, 100, None, 1, 1)];
    let cs = collate(&rows).unwrap();
    assert_eq!(cs[0].avg_latency, None);
    let no_credits = vec![prow("b", 1, 0, Some(FIXED_ONE), 1, 1)];
    assert_eq!(collate(&no_credits).unwrap()[0].avg_latency, None);
}

#[test]
fn collation_ignores_period_order() {
    let a = vec![prow("x", 3, 70, Some(2 * FIXED_ONE), 7, 9), prow("y", 1, 5, Some(FIXED_ONE), 3, 4)];
    let b = vec![prow("x", 5, 30, Some(4 * FIXED_ONE), 11, 2), prow("z", 2, 9, None, 1, 1)];
    let ab: Vec<PeriodRow> = a.iter().chain(b.iter()).map(clone_row).collect();
    let ba: Vec<PeriodRow> = b.iter().chain(a.iter()).map(clone_row).collect();
    let c1 = collate(&ab).unwrap();
    let c2 = collate(&ba).unwrap();
    let x1 = c1.iter().find(|c| c.name == b"x".to_vec()).unwrap();
    let x2 = c2.iter().find(|c| c.name == b"x".to_vec()).unwrap();
    assert_eq!(x1.total_validators, x2.total_validators);
    assert_eq!(x1.normal_pct, x2.normal_pct);
    assert_eq!(x1.timely_pct, x2.timely_pct);
    assert_eq!(x1.avg_latency, x2.avg_latency);
    assert_eq!(x1.total_normal_credits, x2.total_normal_credits);
    assert_eq!(x1.total_periods, 2);
    assert_eq!(x1.avg_latency, Some(FIXED_ONE * (2 * 70 + 4 * 30) / 100));
}

fn clone_row(r: &PeriodRow) -> PeriodRow {
    PeriodRow {
        name: r.name.clone(),
        total_validators: r.total_validators,
        total_normal_credits: r.total_normal_credits,
        total_timely_credits: r.total_timely_credits,
        avg_latency: r.avg_latency,
        normal_pct: r.normal_pct,
        timely_pct: r.timely_pct,
    }
}

#[test]
fn collation_overflow_is_refused() {
    let rows = vec![prow("a", 1, u64::MAX, Some(u64::MAX), 1, 1), prow("a", 1, u64::MAX, Some(u64::MAX), 1, 1)];
    assert!(matches!(collate(&rows), Err(CollateError::Overflow)));
}

#[test]
fn diff_of_zero_share_is_undefined() {
    assert_eq!(diff_pct(0, FIXED_ONE / 2), None);
    assert_eq!(diff_pct(0, 0), None);
}

#[test]
fn diff_is_relative_change_in_percent() {
    // from 0.5 to 0.6 is +20%
    assert_eq!(diff_pct(FIXED_ONE / 2, 6 * FIXED_ONE / 10), Some(20 * FIXED_ONE as i128));
    // from 0.8 to 0.6 is -25%
    assert_eq!(diff_pct(8 * FIXED_ONE / 10, 6 * FIXED_ONE / 10), Some(-25 * FIXED_ONE as i128));
    assert_eq!(diff_pct(3, 3), Some(0));
}

#[test]
fn ranking_matches_a_reference_sort() {
    let keys: Vec<u64> = vec![5, 9, 1, 9, 0, 7, 5, 3];
    let order = rank_descending(&keys);
    let mut reference: Vec<usize> = (0..keys.len()).collect();
    reference.sort_by(|a, b| keys[*b].cmp(&keys[*a]));
    assert_eq!(order, reference);
}

#[test]
fn cross_ranks_point_back_to_each_entity() {
    let normal: Vec<u64> = vec![10, 40, 30, 20];
    let timely: Vec<u64> = vec![40, 10, 20, 30];
    let d = DualRanking::new(&normal, &timely);
    assert_eq!(d.normal_order, vec![1, 2, 3, 0]);
    assert_eq!(d.timely_order, vec![0, 3, 2, 1]);
    for e in 0..4 {
        assert_eq!(d.normal_order[d.normal_rank[e]], e);
        assert_eq!(d.timely_order[d.timely_rank[e]], e);
    }
    // row 0: entity 1 leads by normal share and is last by timely share
    assert_eq!(d.timely_rank[d.normal_order[0]], 3);
    assert_eq!(d.normal_rank[d.timely_order[0]], 3);
}

#[test]
fn ranking_of_nothing_is_empty() {
    let d = DualRanking::new(&vec![], &vec![]);
    assert!(d.normal_order.is_empty());
    assert!(d.timely_rank.is_empty());
}

#[test]
fn table_pairs_ranks_with_cross_ranks() {
    let rows = vec![
        prow("a", 1, 10, Some(FIXED_ONE), FIXED_ONE / 10, FIXED_ONE),
        prow("b", 1, 10, Some(FIXED_ONE), FIXED_ONE, FIXED_ONE / 10),
        prow("c", 1, 10, Some(FIXED_ONE), 0, FIXED_ONE / 2),
    ];
    let cs = collate(&rows).unwrap();
    let (_, table) = comparison_table(&cs);
    assert_eq!(table.len(), 3);
    // by normal share: b, a, c; by timely share: a, c, b
    assert_eq!(table[0].left, 1);
    assert_eq!(table[0].left_timely_rank, 2);
    assert_eq!(table[0].right, 0);
    assert_eq!(table[0].right_normal_rank, 1);
    assert_eq!(table[0].left_diff, Some(-90 * FIXED_ONE as i128));
    assert_eq!(table[2].left, 2);
    assert_eq!(table[2].left_diff, None);
    assert_eq!(table[2].right, 1);
    assert_eq!(table[2].right_normal_rank, 0);
}
