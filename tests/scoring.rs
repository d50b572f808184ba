use vote_credits::scoring::{
    average_by_data_center, credit_per_vote, report_ratios, score_histogram, score_row, score_validators,
    score_run, HistogramRow, Multiplier, ScoreError, ScoreParams, ScoredEntry, FIXED_ONE,
};

fn params(grace: u64, max_credits: u64, num: u64, den: u64) -> ScoreParams {
    ScoreParams { grace, max_credits, multiplier: Multiplier { num, den } }
}

fn row(dc: &str, key: &str, tx: u64, credits: u64, filled: &[(usize, u64)]) -> HistogramRow {
    let mut buckets = vec![0u64; 64];
    for &(i, c) in filled {
        buckets[i] = c;
    }
    HistogramRow {
        data_center: dc.as_bytes().to_vec(),
        pubkey: key.as_bytes().to_vec(),
        total_transactions: tx,
        total_credits: credits,
        buckets,
    }
}

#[test]
fn credit_decays_past_grace() {
    let p = params(2, 16, 1, 2);
    assert_eq!(credit_per_vote(0, &p), 16);
    assert_eq!(credit_per_vote(2, &p), 16);
    assert_eq!(credit_per_vote(3, &p), 16);
    assert_eq!(credit_per_vote(4, &p), 15);
    assert_eq!(credit_per_vote(12, &p), 11);
}

#[test]
fn credit_never_below_one() {
    let p = params(0, 4, 1, 1);
    assert_eq!(credit_per_vote(3, &p), 1);
    assert_eq!(credit_per_vote(4, &p), 1);
    assert_eq!(credit_per_vote(63, &p), 1);
    let huge = params(0, 10, u64::MAX, 1);
    assert_eq!(credit_per_vote(u64::MAX, &huge), 1);
}

#[test]
fn credit_non_increasing_over_buckets() {
    let p = params(3, 8, 3, 4);
    let mut last = u64::MAX;
    for i in 0..64u64 {
        let c = credit_per_vote(i, &p);
        assert!(c <= last);
        assert!(c >= 1);
        last = c;
    }
}

#[test]
fn single_bucket_example() {
    // multiplier 0.25; the truncated reduction of latency 2 is zero
    let p = params(0, 16, 25, 100);
    let r = row("DC1", "v1", 100, 50, &[(2, 1)]);
    let e = score_row(&r, &p).unwrap();
    assert_eq!(e.total_timely_credits, 16);
    assert_eq!(e.total_latency, 2);
    assert_eq!(e.total_validators, 1);
    assert_eq!(e.total_credits, 50);
    assert_eq!(e.total_transactions, 100);
    assert_eq!(e.name, b"v1".to_vec());
}

#[test]
fn whole_reduction_example() {
    let p = params(0, 16, 1, 2);
    let r = row("DC1", "v1", 100, 50, &[(2, 1), (10, 3)]);
    let e = score_row(&r, &p).unwrap();
    assert_eq!(e.total_timely_credits, 15 + 3 * 11);
    assert_eq!(e.total_latency, 2 + 30);
}

#[test]
fn histogram_overflow_is_refused() {
    let p = params(0, 16, 0, 1);
    let mut h = vec![0u64; 64];
    h[1] = u64::MAX;
    assert_eq!(score_histogram(&h, &p), None);
    h[1] = 0;
    h[0] = u64::MAX;
    // latency zero adds nothing to the latency, but the credits overflow
    assert_eq!(score_histogram(&h, &p), None);
    h[0] = 1;
    assert_eq!(score_histogram(&h, &p), Some((16, 0)));
}

#[test]
fn data_center_averages_two_validators() {
    let p = params(0, 16, 0, 1);
    let rows = vec![row("DC1", "a", 10, 40, &[]), row("DC1", "b", 20, 60, &[])];
    let dcs = average_by_data_center(&rows, &p).unwrap();
    assert_eq!(dcs.len(), 1);
    assert_eq!(dcs[0].name, b"DC1".to_vec());
    assert_eq!(dcs[0].total_validators, 2);
    assert_eq!(dcs[0].total_credits, 50);
    assert_eq!(dcs[0].total_transactions, 15);
}

#[test]
fn data_center_averages_every_field() {
    let p = params(0, 10, 1, 1);
    let rows = vec![
        row("X", "a", 3, 7, &[(1, 2)]),
        row("Y", "b", 5, 5, &[(0, 1)]),
        row("X", "c", 4, 8, &[(3, 1)]),
        row("X", "d", 5, 9, &[]),
    ];
    let dcs = average_by_data_center(&rows, &p).unwrap();
    assert_eq!(dcs.len(), 2);
    assert_eq!(dcs[0].name, b"X".to_vec());
    assert_eq!(dcs[0].total_validators, 3);
    assert_eq!(dcs[0].total_transactions, 12 / 3);
    assert_eq!(dcs[0].total_credits, 24 / 3);
    // timely: 2 votes at latency 1 earn 9 each, 1 at latency 3 earns 7
    assert_eq!(dcs[0].total_timely_credits, (18 + 7) / 3);
    assert_eq!(dcs[0].total_latency, (2 + 3) / 3);
    assert_eq!(dcs[1].name, b"Y".to_vec());
    assert_eq!(dcs[1].total_validators, 1);
    assert_eq!(dcs[1].total_timely_credits, 10);
}

#[test]
fn data_center_sum_overflow_is_refused() {
    let p = params(0, 1, 0, 1);
    let rows = vec![row("X", "a", u64::MAX, 1, &[]), row("X", "b", 1, 1, &[])];
    assert!(average_by_data_center(&rows, &p).is_none());
    let apart = vec![row("X", "a", u64::MAX, 1, &[]), row("Y", "b", 1, 1, &[])];
    assert!(average_by_data_center(&apart, &p).is_some());
}

#[test]
fn validators_keep_input_order() {
    let p = params(0, 2, 0, 1);
    let rows = vec![row("X", "a", 1, 3, &[(0, 3)]), row("X", "b", 2, 4, &[(5, 1)])];
    let es = score_validators(&rows, &p).unwrap();
    assert_eq!(es.len(), 2);
    assert_eq!(es[0].name, b"a".to_vec());
    assert_eq!(es[0].total_timely_credits, 6);
    assert_eq!(es[1].name, b"b".to_vec());
    assert_eq!(es[1].total_latency, 5);
    assert_eq!(es[1].total_validators, 1);
}

fn entry(name: &str, credits: u64, timely: u64, latency: u64) -> ScoredEntry {
    ScoredEntry {
        name: name.as_bytes().to_vec(),
        total_validators: 1,
        total_transactions: 0,
        total_credits: credits,
        total_timely_credits: timely,
        total_latency: latency,
    }
}

#[test]
fn shares_are_against_the_maximum() {
    let es = vec![entry("a", 50, 30, 100), entry("b", 100, 60, 50), entry("c", 0, 0, 0)];
    let rs = report_ratios(&es).unwrap();
    assert_eq!(rs.len(), 3);
    assert_eq!(rs[0].normal_pct, Some(FIXED_ONE / 2));
    assert_eq!(rs[0].timely_pct, Some(FIXED_ONE / 2));
    assert_eq!(rs[1].normal_pct, Some(FIXED_ONE));
    assert_eq!(rs[0].avg_latency, Some(2 * FIXED_ONE as u128));
    assert_eq!(rs[1].avg_latency, Some(FIXED_ONE as u128 / 2));
    assert_eq!(rs[2].avg_latency, None);
    assert_eq!(rs[2].normal_pct, Some(0));
    for r in &rs {
        assert!(r.normal_pct.unwrap() <= FIXED_ONE);
        assert!(r.timely_pct.unwrap() <= FIXED_ONE);
    }
}

#[test]
fn shares_of_an_all_zero_run_are_undefined() {
    let es = vec![entry("a", 0, 0, 0)];
    let rs = report_ratios(&es).unwrap();
    assert_eq!(rs[0].normal_pct, None);
    assert_eq!(rs[0].timely_pct, None);
}

#[test]
fn empty_run_has_no_ratios() {
    let es: Vec<ScoredEntry> = Vec::new();
    assert!(report_ratios(&es).is_none());
}

#[test]
fn run_by_data_center_reports_averages() {
    let p = params(0, 16, 0, 1);
    let rows = vec![row("DC1", "a", 10, 40, &[(0, 40)]), row("DC1", "b", 20, 60, &[(0, 60)]), row("DC2", "c", 5, 100, &[(0, 100)])];
    let run = score_run(&rows, false, &p).unwrap();
    assert_eq!(run.entries.len(), 2);
    assert_eq!(run.entries[0].total_credits, 50);
    assert_eq!(run.entries[0].total_timely_credits, 16 * 50);
    assert_eq!(run.ratios[0].normal_pct, Some(FIXED_ONE / 2));
    assert_eq!(run.ratios[1].timely_pct, Some(FIXED_ONE));
    let by_v = score_run(&rows, true, &p).unwrap();
    assert_eq!(by_v.entries.len(), 3);
    assert_eq!(by_v.ratios[0].normal_pct, Some(4 * FIXED_ONE / 10));
}

#[test]
fn run_errors() {
    let p = params(0, 16, 0, 1);
    assert!(matches!(score_run(&vec![], true, &p), Err(ScoreError::Empty)));
    assert!(matches!(score_run(&vec![], false, &p), Err(ScoreError::Empty)));
    let big = vec![row("X", "a", u64::MAX, 1, &[]), row("X", "b", 1, 1, &[])];
    assert!(matches!(score_run(&big, false, &p), Err(ScoreError::Overflow)));
    assert!(score_run(&big, true, &p).is_ok());
    let hot = vec![row("X", "a", 1, 1, &[(0, u64::MAX)])];
    assert!(matches!(score_run(&hot, true, &p), Err(ScoreError::Overflow)));
}
