use vote_credits::directory::{data_center_of, display_of, DirectoryEntry, Icon, MISSING_ICON_URL};
use vote_credits::histogram::{data_center_label, newly_voted, LatencyBook, ObserveError, VoteAccount};

#[test]
fn observation_fills_buckets_by_latency() {
    let mut a = VoteAccount::new(b"v1".to_vec());
    assert_eq!(a.observe(100, &vec![99, 97, 90]), Ok(()));
    assert_eq!(a.total_transactions, 1);
    assert_eq!(a.total_vote_credits, 3);
    assert_eq!(a.vote_latencies[0], 1);
    assert_eq!(a.vote_latencies[2], 1);
    assert_eq!(a.vote_latencies[9], 1);
    assert_eq!(a.vote_latencies.iter().map(|&c| c as u64).sum::<u64>(), 3);
}

#[test]
fn stale_votes_count_as_credits_only() {
    let mut a = VoteAccount::new(b"v1".to_vec());
    assert_eq!(a.observe(200, &vec![100, 135, 136, 198]), Ok(()));
    assert_eq!(a.total_vote_credits, 4);
    let in_buckets: u64 = a.vote_latencies.iter().map(|&c| c as u64).sum();
    assert_eq!(in_buckets, 2);
    assert!(in_buckets <= a.total_vote_credits as u64);
    assert_eq!(a.vote_latencies[63], 1);
    assert_eq!(a.vote_latencies[1], 1);
}

#[test]
fn recent_votes_fill_buckets_exactly() {
    let mut a = VoteAccount::new(b"v1".to_vec());
    assert_eq!(a.observe(64, &vec![0, 30, 63]), Ok(()));
    assert_eq!(a.observe(70, &vec![65]), Ok(()));
    let in_buckets: u64 = a.vote_latencies.iter().map(|&c| c as u64).sum();
    assert_eq!(in_buckets, a.total_vote_credits as u64);
    assert_eq!(a.total_transactions, 2);
}

#[test]
fn vote_not_behind_slot_is_refused() {
    let mut a = VoteAccount::new(b"v1".to_vec());
    assert_eq!(a.observe(10, &vec![5, 10]), Err(ObserveError::SlotNotBehind));
    assert_eq!(a.total_transactions, 0);
    assert_eq!(a.total_vote_credits, 0);
    assert_eq!(a.observe(0, &vec![0]), Err(ObserveError::SlotNotBehind));
    assert_eq!(a.observe(10, &vec![]), Ok(()));
    assert_eq!(a.total_transactions, 1);
}

#[test]
fn counter_overflow_is_refused() {
    let mut a = VoteAccount::new(b"v1".to_vec());
    a.total_transactions = u64::MAX;
    assert_eq!(a.observe(10, &vec![5]), Err(ObserveError::CounterOverflow));
    assert_eq!(a.total_vote_credits, 0);
}

#[test]
fn book_keeps_one_account_per_key() {
    let mut b = LatencyBook::new();
    assert_eq!(b.observe(10, &b"a".to_vec(), &vec![9]), Ok(()));
    assert_eq!(b.observe(11, &b"b".to_vec(), &vec![9, 10]), Ok(()));
    assert_eq!(b.observe(12, &b"a".to_vec(), &vec![10]), Ok(()));
    assert_eq!(b.accounts.len(), 2);
    assert_eq!(b.accounts[0].pubkey, b"a".to_vec());
    assert_eq!(b.accounts[0].total_transactions, 2);
    assert_eq!(b.accounts[0].total_vote_credits, 2);
    assert_eq!(b.accounts[0].vote_latencies[0], 1);
    assert_eq!(b.accounts[0].vote_latencies[1], 1);
    assert_eq!(b.accounts[1].total_vote_credits, 2);
    assert_eq!(b.observe(12, &b"c".to_vec(), &vec![12]), Err(ObserveError::SlotNotBehind));
    assert_eq!(b.accounts.len(), 2);
}

#[test]
fn data_center_label_strips_spaces() {
    assert_eq!(data_center_label(Some(&b" 123 -US\t-NYC\n".to_vec())), b"123-US-NYC".to_vec());
    assert_eq!(data_center_label(None), b"_".to_vec());
}

fn dir_entry(key: &str, name: Option<&str>, url: Option<&str>, dc: Option<&str>) -> DirectoryEntry {
    DirectoryEntry {
        vote_account: key.as_bytes().to_vec(),
        name: name.map(|s| s.as_bytes().to_vec()),
        avatar_url: url.map(|s| s.as_bytes().to_vec()),
        data_center_key: dc.map(|s| s.as_bytes().to_vec()),
    }
}

#[test]
fn display_falls_back_per_field() {
    let dir = vec![
        dir_entry("k1", Some("Alpha"), Some("http://a/icon.png"), None),
        dir_entry("k2", None, None, None),
    ];
    let (n, i) = display_of(&dir, &b"k1".to_vec());
    assert_eq!(n, b"Alpha".to_vec());
    assert!(matches!(i, Icon::Url(u) if u == b"http://a/icon.png".to_vec()));
    let (n, i) = display_of(&dir, &b"k2".to_vec());
    assert_eq!(n, b"k2".to_vec());
    assert!(matches!(i, Icon::Fallback));
    let (n, i) = display_of(&dir, &b"k3".to_vec());
    assert_eq!(n, b"k3".to_vec());
    assert!(matches!(i, Icon::Absent));
    assert!(MISSING_ICON_URL.ends_with("missing_icon.png"));
}

#[test]
fn later_record_overrides_earlier() {
    let dir = vec![dir_entry("k1", Some("Old"), None, Some("A B")), dir_entry("k1", Some("New"), None, None)];
    let (n, _) = display_of(&dir, &b"k1".to_vec());
    assert_eq!(n, b"New".to_vec());
    assert_eq!(data_center_of(&dir, &b"k1".to_vec()), b"AB".to_vec());
    assert_eq!(data_center_of(&dir, &b"zz".to_vec()), b"_".to_vec());
}

#[test]
fn only_new_slots_are_reported() {
    assert_eq!(newly_voted(0, &vec![5, 6, 7]), (vec![5, 6, 7], 7));
    assert_eq!(newly_voted(6, &vec![5, 6, 7, 8]), (vec![7, 8], 8));
    assert_eq!(newly_voted(9, &vec![5, 6]), (vec![], 9));
    assert_eq!(newly_voted(3, &vec![]), (vec![], 3));
}
