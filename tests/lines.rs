use vote_credits::lines::{parse_histogram_row, parse_observation, parse_period_row};
use vote_credits::text::{parse_fixed, parse_u64, place_first_name, render_fixed, split_on};

#[test]
fn split_keeps_empty_pieces() {
    let p = split_on(&b"a  b ".to_vec(), b' ');
    assert_eq!(p, vec![b"a".to_vec(), vec![], b"b".to_vec(), vec![]]);
    assert_eq!(split_on(&vec![], b' '), vec![Vec::<u8>::new()]);
}

#[test]
fn numbers_read_exactly() {
    assert_eq!(parse_u64(&b"18446744073709551615".to_vec()), Some(u64::MAX));
    assert_eq!(parse_u64(&b"18446744073709551616".to_vec()), None);
    assert_eq!(parse_u64(&b"".to_vec()), None);
    assert_eq!(parse_u64(&b"12x".to_vec()), None);
    assert_eq!(parse_u64(&b"0042".to_vec()), Some(42));
}

#[test]
fn decimals_read_in_fixed_point() {
    assert_eq!(parse_fixed(&b"0.25".to_vec()), Some(250_000_000_000));
    assert_eq!(parse_fixed(&b"1".to_vec()), Some(1_000_000_000_000));
    assert_eq!(parse_fixed(&b"2.".to_vec()), Some(2_000_000_000_000));
    assert_eq!(parse_fixed(&b"0.3333333333333333".to_vec()), Some(333_333_333_333));
    assert_eq!(parse_fixed(&b"NaN".to_vec()), None);
    assert_eq!(parse_fixed(&b"inf".to_vec()), None);
    assert_eq!(parse_fixed(&b".5".to_vec()), None);
    assert_eq!(parse_fixed(&b"1.2.3".to_vec()), None);
    assert_eq!(parse_fixed(&b"18446745".to_vec()), None);
    assert_eq!(parse_fixed(&b"18446744.073709551615".to_vec()), Some(u64::MAX));
}

#[test]
fn data_center_names_put_place_first() {
    assert_eq!(place_first_name(&b"24940-DE-Falkenstein".to_vec()), b"DE-Falkenstein-24940".to_vec());
    assert_eq!(place_first_name(&b"1-US-NYC-a-b".to_vec()), b"US-NYC-1-a-b".to_vec());
    assert_eq!(place_first_name(&b"1-US".to_vec()), b"1-US".to_vec());
    assert_eq!(place_first_name(&b"_".to_vec()), b"_".to_vec());
}

#[test]
fn observation_line_reads() {
    let o = parse_observation(&b"100 v1 97 98".to_vec()).unwrap();
    assert_eq!(o.slot, 100);
    assert_eq!(o.vote_account, b"v1".to_vec());
    assert_eq!(o.voted, vec![97, 98]);
    assert!(parse_observation(&b"100".to_vec()).is_none());
    assert!(parse_observation(&b"x v1 1".to_vec()).is_none());
    assert!(parse_observation(&b"100 v1 1 y".to_vec()).is_none());
    assert_eq!(parse_observation(&b"5 v2".to_vec()).unwrap().voted, Vec::<u64>::new());
}

#[test]
fn histogram_line_reads() {
    let mut line = String::from("DC1 v1 100 50");
    for i in 0..64 {
        line.push_str(if i == 2 { " 1" } else { " 0" });
    }
    let r = parse_histogram_row(&line.as_bytes().to_vec()).unwrap();
    assert_eq!(r.data_center, b"DC1".to_vec());
    assert_eq!(r.pubkey, b"v1".to_vec());
    assert_eq!(r.total_transactions, 100);
    assert_eq!(r.total_credits, 50);
    assert_eq!(r.buckets.len(), 64);
    assert_eq!(r.buckets[2], 1);
    assert!(parse_histogram_row(&b"DC1 v1 100 50 0".to_vec()).is_none());
    let bad = line.replace("DC1 v1 100", "DC1 v1 1x0");
    assert!(parse_histogram_row(&bad.as_bytes().to_vec()).is_none());
}

#[test]
fn scored_line_reads() {
    let r = parse_period_row(&b"123-US-NYC 2 7 40 30 1.5 0.5 NaN".to_vec(), true);
    assert!(r.is_none());
    let r = parse_period_row(&b"123-US-NYC 2 7 40 30 NaN 0.5 0.75".to_vec(), true).unwrap();
    assert_eq!(r.name, b"US-NYC-123".to_vec());
    assert_eq!(r.total_validators, 2);
    assert_eq!(r.total_normal_credits, 40);
    assert_eq!(r.total_timely_credits, 30);
    assert_eq!(r.avg_latency, None);
    assert_eq!(r.normal_pct, 500_000_000_000);
    assert_eq!(r.timely_pct, 750_000_000_000);
    let v = parse_period_row(&b"123-US-NYC 1 7 40 30 1.5 1 1".to_vec(), false).unwrap();
    assert_eq!(v.name, b"123-US-NYC".to_vec());
    assert_eq!(v.avg_latency, Some(1_500_000_000_000));
    assert!(parse_period_row(&b"a 1 7 40 30 1.5 1".to_vec(), false).is_none());
}

#[test]
fn rendered_decimals_read_back() {
    assert_eq!(render_fixed(250_000_000_000), b"0.250000000000".to_vec());
    assert_eq!(render_fixed(0), b"0.000000000000".to_vec());
    assert_eq!(render_fixed(63_000_000_000_001), b"63.000000000001".to_vec());
    for v in [0u64, 1, 999_999_999_999, 1_000_000_000_000, 123_456_789_012_345, u64::MAX] {
        assert_eq!(parse_fixed(&render_fixed(v as u128)), Some(v));
    }
}
