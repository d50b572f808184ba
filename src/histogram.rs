use vstd::prelude::*;
use crate::text::bytes_equal;

verus! {

/// Number of latency buckets kept per vote account; older votes are counted
/// as credits but not placed in a bucket.
pub const LATENCY_BUCKETS: usize = 64;

/// Latency of a vote for slot `voted` that landed in slot `slot`: the slots
/// past the earliest slot it could have named.
pub open spec fn latency(slot: int, voted: int) -> int {
    slot - 1 - voted
}

/// Every voted slot lies before the slot its vote landed in.
pub open spec fn all_behind(slot: u64, voted: Seq<u64>) -> bool {
    forall|i: int| 0 <= i < voted.len() ==> #[trigger] voted[i] < slot
}

/// How many of the voted slots have latency `b`.
pub open spec fn count_latency(slot: u64, voted: Seq<u64>, b: int) -> int
    decreases voted.len(),
{
    if voted.len() == 0 {
        0
    } else {
        count_latency(slot, voted.drop_last(), b) + if latency(slot as int, voted.last() as int) == b {
            1int
        } else {
            0int
        }
    }
}

/// How many of the voted slots are too old for a bucket.
pub open spec fn count_stale(slot: u64, voted: Seq<u64>) -> int
    decreases voted.len(),
{
    if voted.len() == 0 {
        0
    } else {
        count_stale(slot, voted.drop_last()) + if latency(slot as int, voted.last() as int)
            >= LATENCY_BUCKETS as int {
            1int
        } else {
            0int
        }
    }
}

/// Sum of the first `n` buckets.
pub open spec fn bucket_total(h: Seq<u32>, n: int) -> int
    decreases n,
{
    if n <= 0 {
        0
    } else {
        bucket_total(h, n - 1) + h[n - 1]
    }
}

/// The counters of one vote account.
pub struct VoteAccount {
    pub pubkey: Vec<u8>,
    pub total_transactions: u64,
    pub total_vote_credits: u32,
    pub vote_latencies: Vec<u32>,
    /// Votes counted as credits that were too old for a bucket.
    pub stale_votes: Ghost<nat>,
}

/// Why an observation was refused.
#[derive(Debug, PartialEq, Eq, Structural)]
pub enum ObserveError {
    /// A voted slot is not before the slot its vote landed in.
    SlotNotBehind,
    /// A counter would pass its largest value.
    CounterOverflow,
}

impl VoteAccount {
    /// One counter per bucket, and every credit is in a bucket or stale.
    pub open spec fn wf(&self) -> bool {
        &&& self.vote_latencies@.len() == LATENCY_BUCKETS
        &&& bucket_total(self.vote_latencies@, LATENCY_BUCKETS as int) + self.stale_votes@
            == self.total_vote_credits
    }

    /// A fresh account with no votes.
    pub fn new(pubkey: Vec<u8>) -> (r: VoteAccount)
        ensures
            r.wf(),
            r.pubkey@ == pubkey@,
            r.total_transactions == 0,
            r.total_vote_credits == 0,
            forall|b: int| 0 <= b < LATENCY_BUCKETS ==> r.vote_latencies@[b] == 0,
            r.stale_votes@ == 0,
    {
        let lat: Vec<u32> = vec![0u32; LATENCY_BUCKETS];
        proof {
            lemma_bucket_total_zero(lat@, LATENCY_BUCKETS as int);
        }
        VoteAccount {
            pubkey,
            total_transactions: 0,
            total_vote_credits: 0,
            vote_latencies: lat,
            stale_votes: Ghost(0),
        }
    }

    /// Records one landed vote transaction: one more transaction, one credit
    /// per voted slot, and each voted slot in the bucket of its latency
    /// unless it is too old. Refused, with the account unchanged, where a
    /// voted slot is not before `slot` or a counter would overflow.
    pub fn observe(&mut self, slot: u64, voted: &Vec<u64>) -> (r: Result<(), ObserveError>)
        requires
            old(self).wf(),
        ensures
            final(self).wf(),
            r == Err::<(), ObserveError>(ObserveError::SlotNotBehind) <==> !all_behind(slot, voted@),
            r == Err::<(), ObserveError>(ObserveError::CounterOverflow) <==> (all_behind(slot, voted@) && (
            old(self).total_transactions == u64::MAX || old(self).total_vote_credits + voted@.len()
                > u32::MAX)),
            r is Err ==> *final(self) == *old(self),
            r is Ok ==> {
                &&& final(self).pubkey@ == old(self).pubkey@
                &&& final(self).total_transactions == old(self).total_transactions + 1
                &&& final(self).total_vote_credits == old(self).total_vote_credits + voted@.len()
                &&& forall|b: int|
                    0 <= b < LATENCY_BUCKETS ==> #[trigger] final(self).vote_latencies@[b]
                        == old(self).vote_latencies@[b] + count_latency(slot, voted@, b)
                &&& final(self).stale_votes@ == old(self).stale_votes@ + count_stale(slot, voted@)
            },
    {
        let n = voted.len();
        let mut i: usize = 0;
        while i < n
            invariant
                n == voted@.len(),
                0 <= i <= n,
                forall|k: int| 0 <= k < i ==> #[trigger] voted@[k] < slot,
                *self == *old(self),
                self.wf(),
            decreases n - i,
        {
            if voted[i] >= slot {
                return Err(ObserveError::SlotNotBehind);
            }
            i = i + 1;
        }
        if self.total_transactions == u64::MAX || (self.total_vote_credits as u128) + (n as u128)
            > u32::MAX as u128 {
            return Err(ObserveError::CounterOverflow);
        }
        self.total_transactions = self.total_transactions + 1;
        let ghost start = *self;
        let mut j: usize = 0;
        while j < n
            invariant
                n == voted@.len(),
                0 <= j <= n,
                all_behind(slot, voted@),
                start.total_vote_credits + n <= u32::MAX,
                start.wf(),
                self.wf(),
                self.pubkey@ == start.pubkey@,
                self.total_transactions == start.total_transactions,
                self.total_vote_credits == start.total_vote_credits + j,
                forall|b: int|
                    0 <= b < LATENCY_BUCKETS ==> #[trigger] self.vote_latencies@[b]
                        == start.vote_latencies@[b] + count_latency(slot, voted@.take(j as int), b),
                self.stale_votes@ == start.stale_votes@ + count_stale(slot, voted@.take(j as int)),
            decreases n - j,
        {
            let ghost before = self.vote_latencies@;
            assert(voted@.take(j + 1).drop_last() =~= voted@.take(j as int));
            assert(voted@.take(j + 1).last() == voted@[j as int]);
            assert(voted@[j as int] < slot);
            let lat: u64 = (slot - 1) - voted[j];
            self.total_vote_credits = self.total_vote_credits + 1;
            if lat < LATENCY_BUCKETS as u64 {
                proof {
                    lemma_bucket_bounds(before, LATENCY_BUCKETS as int, lat as int);
                }
                let c = self.vote_latencies[lat as usize];
                self.vote_latencies.set(lat as usize, c + 1);
                proof {
                    lemma_bucket_total_bump(before, LATENCY_BUCKETS as int, lat as int);
                }
            } else {
                self.stale_votes = Ghost(self.stale_votes@ + 1);
            }
            j = j + 1;
        }
        assert(voted@.take(n as int) =~= voted@);
        Ok(())
    }
}

proof fn lemma_bucket_total_zero(h: Seq<u32>, n: int)
    requires
        0 <= n <= h.len(),
        forall|b: int| 0 <= b < h.len() ==> h[b] == 0,
    ensures
        bucket_total(h, n) == 0,
    decreases n,
{
    if n > 0 {
        lemma_bucket_total_zero(h, n - 1);
    }
}

proof fn lemma_bucket_bounds(h: Seq<u32>, n: int, b: int)
    requires
        0 <= b < n <= h.len(),
    ensures
        h[b] <= bucket_total(h, n),
        bucket_total(h, n) >= 0,
    decreases n,
{
    if n - 1 > b {
        lemma_bucket_bounds(h, n - 1, b);
    } else {
        lemma_bucket_nonneg(h, n - 1);
    }
}

proof fn lemma_bucket_nonneg(h: Seq<u32>, n: int)
    requires
        0 <= n <= h.len(),
    ensures
        bucket_total(h, n) >= 0,
    decreases n,
{
    if n > 0 {
        lemma_bucket_nonneg(h, n - 1);
    }
}

proof fn lemma_bucket_total_bump(h: Seq<u32>, n: int, b: int)
    requires
        0 <= b < n <= h.len(),
        h[b] < u32::MAX,
    ensures
        bucket_total(h.update(b, (h[b] + 1) as u32), n) == bucket_total(h, n) + 1,
    decreases n,
{
    let h2 = h.update(b, (h[b] + 1) as u32);
    if n - 1 > b {
        lemma_bucket_total_bump(h, n - 1, b);
    } else {
        lemma_bucket_total_same(h, h2, n - 1);
    }
}

proof fn lemma_bucket_total_same(h: Seq<u32>, g: Seq<u32>, n: int)
    requires
        0 <= n <= h.len(),
        n <= g.len(),
        forall|k: int| 0 <= k < n ==> h[k] == g[k],
    ensures
        bucket_total(h, n) == bucket_total(g, n),
    decreases n,
{
    if n > 0 {
        lemma_bucket_total_same(h, g, n - 1);
    }
}

/// The buckets of an account never hold more votes than its credits, and hold
/// them all exactly when no vote was too old for a bucket.
pub proof fn lemma_buckets_within_credits(a: VoteAccount)
    requires
        a.wf(),
    ensures
        bucket_total(a.vote_latencies@, LATENCY_BUCKETS as int) <= a.total_vote_credits,
        bucket_total(a.vote_latencies@, LATENCY_BUCKETS as int) == a.total_vote_credits
            <==> a.stale_votes@ == 0,
{
}

/// An observation adds no stale vote exactly when every voted slot has a
/// latency below the number of buckets.
pub proof fn lemma_no_stale_iff_recent(slot: u64, voted: Seq<u64>)
    ensures
        count_stale(slot, voted) == 0 <==> forall|i: int|
            0 <= i < voted.len() ==> latency(slot as int, #[trigger] voted[i] as int) < LATENCY_BUCKETS as int,
    decreases voted.len(),
{
    if voted.len() > 0 {
        lemma_no_stale_iff_recent(slot, voted.drop_last());
        lemma_stale_nonneg(slot, voted.drop_last());
        assert forall|i: int| 0 <= i < voted.len() - 1 implies #[trigger] voted.drop_last()[i] == voted[i] by {}
        if count_stale(slot, voted) == 0 {
            assert forall|i: int| 0 <= i < voted.len() implies latency(slot as int, #[trigger] voted[i] as int)
                < LATENCY_BUCKETS as int by {
                if i < voted.len() - 1 {
                    assert(voted.drop_last()[i] == voted[i]);
                }
            }
        }
    }
}

proof fn lemma_stale_nonneg(slot: u64, voted: Seq<u64>)
    ensures
        count_stale(slot, voted) >= 0,
    decreases voted.len(),
{
    if voted.len() > 0 {
        lemma_stale_nonneg(slot, voted.drop_last());
    }
}

/// `b` is `a` after one accepted observation of `voted` in `slot`.
pub open spec fn observed(a: VoteAccount, b: VoteAccount, slot: u64, voted: Seq<u64>) -> bool {
    &&& b.wf()
    &&& b.pubkey@ == a.pubkey@
    &&& b.total_transactions == a.total_transactions + 1
    &&& b.total_vote_credits == a.total_vote_credits + voted.len()
    &&& forall|k: int|
        0 <= k < LATENCY_BUCKETS ==> #[trigger] b.vote_latencies@[k] == a.vote_latencies@[k] + count_latency(
            slot,
            voted,
            k,
        )
    &&& b.stale_votes@ == a.stale_votes@ + count_stale(slot, voted)
}

/// `b` is a fresh account for `pubkey` after one accepted observation.
pub open spec fn observed_fresh(pubkey: Seq<u8>, b: VoteAccount, slot: u64, voted: Seq<u64>) -> bool {
    &&& b.wf()
    &&& b.pubkey@ == pubkey
    &&& b.total_transactions == 1
    &&& b.total_vote_credits == voted.len()
    &&& forall|k: int|
        0 <= k < LATENCY_BUCKETS ==> #[trigger] b.vote_latencies@[k] == count_latency(slot, voted, k)
    &&& b.stale_votes@ == count_stale(slot, voted)
}

/// The vote accounts seen so far, one per public key, in order of first
/// appearance.
pub struct LatencyBook {
    pub accounts: Vec<VoteAccount>,
}

impl LatencyBook {
    /// Every account is well formed and no key has two accounts.
    pub open spec fn wf(&self) -> bool {
        &&& forall|j: int| 0 <= j < self.accounts@.len() ==> (#[trigger] self.accounts@[j]).wf()
        &&& forall|j: int, k: int|
            0 <= j < k < self.accounts@.len() ==> #[trigger] self.accounts@[j].pubkey@
                != #[trigger] self.accounts@[k].pubkey@
    }

    /// Position of the account of `pubkey`, if it has one.
    pub open spec fn has_key(&self, pubkey: Seq<u8>, j: int) -> bool {
        0 <= j < self.accounts@.len() && self.accounts@[j].pubkey@ == pubkey
    }

    /// Whether recording `n` more votes for `pubkey` would overflow a counter.
    pub open spec fn would_overflow(&self, pubkey: Seq<u8>, n: int) -> bool {
        if exists|j: int| self.has_key(pubkey, j) {
            let j = choose|j: int| self.has_key(pubkey, j);
            self.accounts@[j].total_transactions == u64::MAX || self.accounts@[j].total_vote_credits + n
                > u32::MAX
        } else {
            n > u32::MAX
        }
    }

    /// An empty book.
    pub fn new() -> (r: LatencyBook)
        ensures
            r.wf(),
            r.accounts@.len() == 0,
    {
        LatencyBook { accounts: Vec::new() }
    }

    /// Records one landed vote transaction of `pubkey`, creating its account
    /// on first sight. Refused, with the book unchanged, where a voted slot is
    /// not before `slot` or a counter would overflow.
    pub fn observe(&mut self, slot: u64, pubkey: &Vec<u8>, voted: &Vec<u64>) -> (r: Result<(), ObserveError>)
        requires
            old(self).wf(),
        ensures
            final(self).wf(),
            r == Err::<(), ObserveError>(ObserveError::SlotNotBehind) <==> !all_behind(slot, voted@),
            r == Err::<(), ObserveError>(ObserveError::CounterOverflow) <==> (all_behind(slot, voted@)
                && old(self).would_overflow(pubkey@, voted@.len() as int)),
            r is Err ==> final(self).accounts@ == old(self).accounts@,
            r is Ok ==> (forall|j: int|
                old(self).has_key(pubkey@, j) ==> {
                    &&& final(self).accounts@.len() == old(self).accounts@.len()
                    &&& observed(old(self).accounts@[j], final(self).accounts@[j], slot, voted@)
                    &&& forall|k: int|
                        0 <= k < old(self).accounts@.len() && k != j ==> #[trigger] final(self).accounts@[k]
                            == old(self).accounts@[k]
                }),
            r is Ok ==> ((forall|j: int| !old(self).has_key(pubkey@, j)) ==> {
                &&& final(self).accounts@.len() == old(self).accounts@.len() + 1
                &&& observed_fresh(pubkey@, final(self).accounts@.last(), slot, voted@)
                &&& forall|k: int|
                    0 <= k < old(self).accounts@.len() ==> #[trigger] final(self).accounts@[k]
                        == old(self).accounts@[k]
            }),
    {
        let n = self.accounts.len();
        let found = find_account(&self.accounts, pubkey);
        let j: usize = match found {
            Some(j) => j,
            None => n,
        };
        if j < n {
            proof {
                assert(self.has_key(pubkey@, j as int));
                assert forall|k: int| self.has_key(pubkey@, k) implies k == j by {
                    if k != j {
                        if k < j {
                            assert(self.accounts@[k].pubkey@ != self.accounts@[j as int].pubkey@);
                        } else {
                            assert(self.accounts@[j as int].pubkey@ != self.accounts@[k].pubkey@);
                        }
                    }
                }
            }
            let ghost before = self.accounts@;
            let mut acct = self.accounts.remove(j);
            proof {
                assert(acct == before[j as int]);
            }
            let res = acct.observe(slot, voted);
            self.accounts.insert(j, acct);
            proof {
                assert(self.accounts@ =~= before.update(j as int, acct));
                assert forall|a: int, b: int|
                    0 <= a < b < self.accounts@.len() implies #[trigger] self.accounts@[a].pubkey@
                    != #[trigger] self.accounts@[b].pubkey@ by {
                    if a != j && b != j {
                        assert(before[a].pubkey@ != before[b].pubkey@);
                    } else if a == j {
                        assert(before[a].pubkey@ != before[b].pubkey@);
                    } else {
                        assert(before[a].pubkey@ != before[b].pubkey@);
                    }
                }
                if res is Err {
                    assert(self.accounts@ =~= before);
                }
            }
            res
        } else {
            let mut acct = VoteAccount::new(pubkey.clone());
            let res = acct.observe(slot, voted);
            if res.is_ok() {
                let ghost before = self.accounts@;
                self.accounts.push(acct);
                proof {
                    assert forall|a: int, b: int|
                        0 <= a < b < self.accounts@.len() implies #[trigger] self.accounts@[a].pubkey@
                        != #[trigger] self.accounts@[b].pubkey@ by {
                        if b < before.len() {
                            assert(before[a].pubkey@ != before[b].pubkey@);
                        }
                    }
                    assert forall|k: int| 0 <= k < LATENCY_BUCKETS implies #[trigger] acct.vote_latencies@[k]
                        == count_latency(slot, voted@, k) by {}
                }
            }
            proof {
                assert(forall|k: int| !self.has_key(pubkey@, k) || k == n);
            }
            res
        }
    }
}

/// Position of the account of `pubkey`, if any.
pub fn find_account(accts: &Vec<VoteAccount>, pubkey: &Vec<u8>) -> (r: Option<usize>)
    ensures
        r matches Some(j) ==> j < accts@.len() && accts@[j as int].pubkey@ == pubkey@,
        r is None ==> forall|k: int| 0 <= k < accts@.len() ==> #[trigger] accts@[k].pubkey@ != pubkey@,
{
    let mut j: usize = 0;
    while j < accts.len()
        invariant
            0 <= j <= accts@.len(),
            forall|k: int| 0 <= k < j ==> #[trigger] accts@[k].pubkey@ != pubkey@,
        decreases accts@.len() - j,
    {
        if bytes_equal(&accts[j].pubkey, pubkey) {
            return Some(j);
        }
        j = j + 1;
    }
    None
}

/// Placeholder data-center id for a validator with none on record.
pub const NO_DATA_CENTER: u8 = 0x5f;

/// ASCII white space.
pub open spec fn is_space(c: u8) -> bool {
    c == 0x20 || c == 0x09 || c == 0x0a || c == 0x0b || c == 0x0c || c == 0x0d
}

/// The bytes of `s` that are not white space, in order.
pub open spec fn strip_spaces(s: Seq<u8>) -> Seq<u8>
    decreases s.len(),
{
    if s.len() == 0 {
        s
    } else if is_space(s.last()) {
        strip_spaces(s.drop_last())
    } else {
        strip_spaces(s.drop_last()).push(s.last())
    }
}

/// The data-center id written for a validator: its recorded id with white
/// space removed, or a placeholder where it has none.
pub fn data_center_label(dc: Option<&Vec<u8>>) -> (r: Vec<u8>)
    ensures
        dc matches Some(d) ==> r@ == strip_spaces(d@),
        dc is None ==> r@ == seq![NO_DATA_CENTER],
{
    match dc {
        None => vec![NO_DATA_CENTER],
        Some(d) => {
            let mut out: Vec<u8> = Vec::new();
            let mut i: usize = 0;
            while i < d.len()
                invariant
                    0 <= i <= d@.len(),
                    out@ == strip_spaces(d@.take(i as int)),
                decreases d@.len() - i,
            {
                assert(d@.take(i + 1).drop_last() =~= d@.take(i as int));
                let c = d[i];
                if !(c == 0x20 || c == 0x09 || c == 0x0a || c == 0x0b || c == 0x0c || c == 0x0d) {
                    out.push(c);
                }
                i = i + 1;
            }
            assert(d@.take(d@.len() as int) =~= d@);
            out
        },
    }
}

/// The newest slot a vote account has been credited with after voting on
/// `slots`, starting from `last`.
pub open spec fn newest_after(last: u64, slots: Seq<u64>) -> u64
    decreases slots.len(),
{
    if slots.len() == 0 {
        last
    } else {
        let m = newest_after(last, slots.drop_last());
        if slots.last() > m { slots.last() } else { m }
    }
}

/// The slots of a vote that are newer than every slot reported before them,
/// in order: a vote repeats the slots of earlier votes, and only new ones
/// are reported.
pub open spec fn newly_voted_spec(last: u64, slots: Seq<u64>) -> Seq<u64>
    decreases slots.len(),
{
    if slots.len() == 0 {
        Seq::<u64>::empty()
    } else {
        let k = newly_voted_spec(last, slots.drop_last());
        if slots.last() > newest_after(last, slots.drop_last()) {
            k.push(slots.last())
        } else {
            k
        }
    }
}

/// The slots of a vote not reported before, given the newest slot reported
/// so far for its account, and the newest slot reported after it.
pub fn newly_voted(last: u64, slots: &Vec<u64>) -> (r: (Vec<u64>, u64))
    ensures
        r.0@ == newly_voted_spec(last, slots@),
        r.1 == newest_after(last, slots@),
{
    let mut out: Vec<u64> = Vec::new();
    let mut newest = last;
    let mut i: usize = 0;
    while i < slots.len()
        invariant
            0 <= i <= slots@.len(),
            out@ == newly_voted_spec(last, slots@.take(i as int)),
            newest == newest_after(last, slots@.take(i as int)),
        decreases slots@.len() - i,
    {
        assert(slots@.take(i + 1).drop_last() =~= slots@.take(i as int));
        let s = slots[i];
        if s > newest {
            out.push(s);
            newest = s;
        }
        i = i + 1;
    }
    assert(slots@.take(slots@.len() as int) =~= slots@);
    (out, newest)
}

} // verus!
