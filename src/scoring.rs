use vstd::prelude::*;
use vstd::arithmetic::div_mod::lemma_div_is_ordered;
use vstd::arithmetic::mul::lemma_mul_inequality;
use crate::text::bytes_equal;

verus! {

/// A non-negative decimal multiplier held exactly as `num / den`.
pub struct Multiplier {
    pub num: u64,
    pub den: u64,
}

impl Multiplier {
    /// The denominator is not zero.
    pub open spec fn wf(&self) -> bool {
        self.den > 0
    }
}

/// The scoring parameters of one run.
pub struct ScoreParams {
    pub grace: u64,
    pub max_credits: u64,
    pub multiplier: Multiplier,
}

impl ScoreParams {
    /// The multiplier is well formed.
    pub open spec fn wf(&self) -> bool {
        self.multiplier.wf()
    }
}

/// Credit reduction for a vote of latency `i`: the slots past the grace
/// period, scaled by the multiplier and truncated.
pub open spec fn reduction(i: int, grace: int, m: Multiplier) -> int {
    let over = if i > grace { i - grace } else { 0 };
    (over * m.num) / (m.den as int)
}

/// Credits earned by one vote of latency `i`: never below one.
pub open spec fn credit_per_vote_spec(i: int, p: ScoreParams) -> int {
    let r = reduction(i, p.grace as int, p.multiplier);
    if p.max_credits > r { p.max_credits - r } else { 1 }
}

/// Timely credits of the first `n` buckets of a histogram.
pub open spec fn timely_sum(h: Seq<u64>, n: int, p: ScoreParams) -> int
    decreases n,
{
    if n <= 0 {
        0
    } else {
        timely_sum(h, n - 1, p) + credit_per_vote_spec(n - 1, p) * h[n - 1]
    }
}

/// Total latency of the first `n` buckets: bucket `i` holds votes of latency `i`.
pub open spec fn latency_sum(h: Seq<u64>, n: int) -> int
    decreases n,
{
    if n <= 0 {
        0
    } else {
        latency_sum(h, n - 1) + (n - 1) * h[n - 1]
    }
}

/// The credit per vote never grows with latency and never drops below one.
pub proof fn lemma_credit_non_increasing(i: int, j: int, p: ScoreParams)
    requires
        0 <= i <= j,
        p.wf(),
    ensures
        credit_per_vote_spec(j, p) <= credit_per_vote_spec(i, p),
        credit_per_vote_spec(j, p) >= 1,
{
    let g = p.grace as int;
    let oi = if i > g { i - g } else { 0 };
    let oj = if j > g { j - g } else { 0 };
    assert(oi <= oj);
    lemma_mul_inequality(oi, oj, p.multiplier.num as int);
    lemma_div_is_ordered(oi * p.multiplier.num, oj * p.multiplier.num, p.multiplier.den as int);
}

proof fn lemma_timely_sum_monotone(h: Seq<u64>, a: int, b: int, p: ScoreParams)
    requires
        0 <= a <= b,
        p.wf(),
    ensures
        timely_sum(h, a, p) <= timely_sum(h, b, p),
    decreases b - a,
{
    if a < b {
        lemma_timely_sum_monotone(h, a, b - 1, p);
        lemma_credit_non_increasing(0, b - 1, p);
        assert(credit_per_vote_spec(b - 1, p) * h[b - 1] >= 0) by (nonlinear_arith)
            requires
                credit_per_vote_spec(b - 1, p) >= 1,
                h[b - 1] >= 0,
        ;
    }
}

proof fn lemma_latency_sum_monotone(h: Seq<u64>, a: int, b: int)
    requires
        0 <= a <= b,
    ensures
        latency_sum(h, a) <= latency_sum(h, b),
    decreases b - a,
{
    if a < b {
        lemma_latency_sum_monotone(h, a, b - 1);
        assert((b - 1) * h[b - 1] >= 0) by (nonlinear_arith)
            requires
                b - 1 >= 0,
                h[b - 1] >= 0,
        ;
    }
}

proof fn lemma_mul_fits(a: int, b: int)
    requires
        0 <= a <= u64::MAX,
        0 <= b <= u64::MAX,
    ensures
        0 <= a * b <= u64::MAX * u64::MAX,
        u64::MAX * u64::MAX + u64::MAX <= u128::MAX,
{
    assert(0 <= a * b <= u64::MAX * u64::MAX) by (nonlinear_arith)
        requires
            0 <= a <= u64::MAX,
            0 <= b <= u64::MAX,
    ;
}

/// Credits earned by one vote of latency `i`.
pub fn credit_per_vote(i: u64, p: &ScoreParams) -> (r: u64)
    requires
        p.wf(),
    ensures
        r == credit_per_vote_spec(i as int, *p),
{
    let over: u64 = if i > p.grace { i - p.grace } else { 0 };
    proof {
        lemma_mul_fits(over as int, p.multiplier.num as int);
    }
    let prod: u128 = (over as u128) * (p.multiplier.num as u128);
    let red: u128 = prod / (p.multiplier.den as u128);
    if (p.max_credits as u128) > red {
        p.max_credits - (red as u64)
    } else {
        1
    }
}

/// Timely credits and total latency of a histogram, or `None` where either
/// sum does not fit in 64 bits.
pub fn score_histogram(h: &Vec<u64>, p: &ScoreParams) -> (r: Option<(u64, u64)>)
    requires
        p.wf(),
    ensures
        r.is_some() <==> (timely_sum(h@, h@.len() as int, *p) <= u64::MAX && latency_sum(
            h@,
            h@.len() as int,
        ) <= u64::MAX),
        r matches Some((t, l)) ==> t == timely_sum(h@, h@.len() as int, *p) && l == latency_sum(
            h@,
            h@.len() as int,
        ),
{
    let n = h.len();
    let mut timely: u64 = 0;
    let mut latency: u64 = 0;
    let mut i: usize = 0;
    while i < n
        invariant
            n == h@.len(),
            p.wf(),
            0 <= i <= n,
            timely == timely_sum(h@, i as int, *p),
            latency == latency_sum(h@, i as int),
        decreases n - i,
    {
        let c = credit_per_vote(i as u64, p);
        proof {
            lemma_credit_non_increasing(0, i as int, *p);
        }
        proof {
            lemma_mul_fits(c as int, h@[i as int] as int);
            lemma_mul_fits(i as int, h@[i as int] as int);
        }
        let add_t: u128 = (c as u128) * (h[i] as u128);
        let add_l: u128 = (i as u128) * (h[i] as u128);
        let next_t: u128 = timely as u128 + add_t;
        let next_l: u128 = latency as u128 + add_l;
        if next_t > u64::MAX as u128 || next_l > u64::MAX as u128 {
            proof {
                lemma_timely_sum_monotone(h@, i + 1, n as int, *p);
                lemma_latency_sum_monotone(h@, i + 1, n as int);
            }
            return None;
        }
        timely = next_t as u64;
        latency = next_l as u64;
        i = i + 1;
    }
    Some((timely, latency))
}

/// One histogram line: a validator, its data center, its counters and its
/// latency buckets.
pub struct HistogramRow {
    pub data_center: Vec<u8>,
    pub pubkey: Vec<u8>,
    pub total_transactions: u64,
    pub total_credits: u64,
    pub buckets: Vec<u64>,
}

/// A scored validator, or the average validator of a data center.
pub struct ScoredEntry {
    pub name: Vec<u8>,
    pub total_validators: u64,
    pub total_transactions: u64,
    pub total_credits: u64,
    pub total_timely_credits: u64,
    pub total_latency: u64,
}

/// Scores one histogram line as a validator entry, or `None` where the
/// timely credits or the total latency do not fit in 64 bits.
pub fn score_row(row: &HistogramRow, p: &ScoreParams) -> (r: Option<ScoredEntry>)
    requires
        p.wf(),
    ensures
        r.is_some() <==> (timely_sum(row.buckets@, row.buckets@.len() as int, *p) <= u64::MAX
            && latency_sum(row.buckets@, row.buckets@.len() as int) <= u64::MAX),
        r matches Some(e) ==> {
            &&& e.name@ == row.pubkey@
            &&& e.total_validators == 1
            &&& e.total_transactions == row.total_transactions
            &&& e.total_credits == row.total_credits
            &&& e.total_timely_credits == timely_sum(row.buckets@, row.buckets@.len() as int, *p)
            &&& e.total_latency == latency_sum(row.buckets@, row.buckets@.len() as int)
        },
{
    match score_histogram(&row.buckets, p) {
        Some((timely, latency)) => Some(
            ScoredEntry {
                name: row.pubkey.clone(),
                total_validators: 1,
                total_transactions: row.total_transactions,
                total_credits: row.total_credits,
                total_timely_credits: timely,
                total_latency: latency,
            },
        ),
        None => None,
    }
}

/// Field `f` of a histogram line once scored: transactions, credits, timely
/// credits, latency.
pub open spec fn row_field(r: HistogramRow, p: ScoreParams, f: int) -> int {
    if f == 0 {
        r.total_transactions as int
    } else if f == 1 {
        r.total_credits as int
    } else if f == 2 {
        timely_sum(r.buckets@, r.buckets@.len() as int, p)
    } else {
        latency_sum(r.buckets@, r.buckets@.len() as int)
    }
}

/// Number of validators of data center `dc` among `rows`.
pub open spec fn dc_count(rows: Seq<HistogramRow>, dc: Seq<u8>) -> int
    decreases rows.len(),
{
    if rows.len() == 0 {
        0
    } else {
        dc_count(rows.drop_last(), dc) + if rows.last().data_center@ == dc {
            1int
        } else {
            0int
        }
    }
}

/// Sum of field `f` over the validators of data center `dc` among `rows`.
pub open spec fn dc_sum(rows: Seq<HistogramRow>, p: ScoreParams, dc: Seq<u8>, f: int) -> int
    decreases rows.len(),
{
    if rows.len() == 0 {
        0
    } else {
        dc_sum(rows.drop_last(), p, dc, f) + if rows.last().data_center@ == dc {
            row_field(rows.last(), p, f)
        } else {
            0
        }
    }
}

proof fn lemma_dc_sum_prefix(rows: Seq<HistogramRow>, p: ScoreParams, a: int, b: int, dc: Seq<u8>, f: int)
    requires
        0 <= a <= b <= rows.len(),
        p.wf(),
        0 <= f < 4,
    ensures
        dc_sum(rows.take(a), p, dc, f) <= dc_sum(rows.take(b), p, dc, f),
    decreases b - a,
{
    if a < b {
        lemma_dc_sum_prefix(rows, p, a, b - 1, dc, f);
        lemma_row_field_nonneg(rows[b - 1], p, f);
        assert(rows.take(b).drop_last() =~= rows.take(b - 1));
    }
}

proof fn lemma_row_field_nonneg(r: HistogramRow, p: ScoreParams, f: int)
    requires
        p.wf(),
    ensures
        row_field(r, p, f) >= 0,
{
    lemma_timely_sum_monotone(r.buckets@, 0, r.buckets@.len() as int, p);
    lemma_latency_sum_monotone(r.buckets@, 0, r.buckets@.len() as int);
}

/// `g` holds the summed fields of its data center among `rows`.
pub open spec fn group_matches(g: ScoredEntry, rows: Seq<HistogramRow>, p: ScoreParams) -> bool {
    &&& g.total_validators == dc_count(rows, g.name@)
    &&& g.total_transactions == dc_sum(rows, p, g.name@, 0)
    &&& g.total_credits == dc_sum(rows, p, g.name@, 1)
    &&& g.total_timely_credits == dc_sum(rows, p, g.name@, 2)
    &&& g.total_latency == dc_sum(rows, p, g.name@, 3)
}

/// Whether every field sum of every data center fits in 64 bits.
pub open spec fn dc_sums_fit(rows: Seq<HistogramRow>, p: ScoreParams) -> bool {
    forall|dc: Seq<u8>, f: int| 0 <= f < 4 ==> #[trigger] dc_sum(rows, p, dc, f) <= u64::MAX
}

fn add_checked(a: u64, b: u64) -> (r: Option<u64>)
    ensures
        r.is_some() <==> a + b <= u64::MAX,
        r matches Some(v) ==> v == a + b,
{
    if (a as u128) + (b as u128) > u64::MAX as u128 {
        None
    } else {
        Some(a + b)
    }
}

/// Position of the entry named `name`, if any.
pub fn find_entry(es: &Vec<ScoredEntry>, name: &Vec<u8>) -> (r: Option<usize>)
    ensures
        r matches Some(j) ==> j < es@.len() && es@[j as int].name@ == name@,
        r is None ==> forall|k: int| 0 <= k < es@.len() ==> #[trigger] es@[k].name@ != name@,
{
    let mut j: usize = 0;
    while j < es.len()
        invariant
            0 <= j <= es@.len(),
            forall|k: int| 0 <= k < j ==> #[trigger] es@[k].name@ != name@,
        decreases es@.len() - j,
    {
        if bytes_equal(&es[j].name, name) {
            return Some(j);
        }
        j = j + 1;
    }
    None
}

/// Sums the scored lines of each data center, in order of first appearance,
/// or `None` where some sum does not fit in 64 bits.
fn sum_by_data_center(rows: &Vec<HistogramRow>, p: &ScoreParams) -> (r: Option<Vec<ScoredEntry>>)
    requires
        rows@.len() <= u64::MAX,
        p.wf(),
    ensures
        r.is_some() <==> dc_sums_fit(rows@, *p),
        r matches Some(gs) ==> {
            &&& forall|j: int| 0 <= j < gs@.len() ==> group_matches(#[trigger] gs@[j], rows@, *p)
            &&& forall|j: int| 0 <= j < gs@.len() ==> dc_count(rows@, #[trigger] gs@[j].name@) >= 1
            &&& forall|j: int, k: int|
                0 <= j < k < gs@.len() ==> #[trigger] gs@[j].name@ != #[trigger] gs@[k].name@
            &&& forall|dc: Seq<u8>|
                (forall|j: int| 0 <= j < gs@.len() ==> #[trigger] gs@[j].name@ != dc) ==> dc_count(
                    rows@,
                    dc,
                ) == 0
        },
{
    let mut gs: Vec<ScoredEntry> = Vec::new();
    let mut i: usize = 0;
    while i < rows.len()
        invariant
            0 <= i <= rows@.len() <= u64::MAX,
            p.wf(),
            forall|j: int| 0 <= j < gs@.len() ==> group_matches(#[trigger] gs@[j], rows@.take(i as int), *p),
            forall|j: int| 0 <= j < gs@.len() ==> dc_count(rows@.take(i as int), #[trigger] gs@[j].name@) >= 1,
            forall|j: int, k: int|
                0 <= j < k < gs@.len() ==> #[trigger] gs@[j].name@ != #[trigger] gs@[k].name@,
            forall|dc: Seq<u8>|
                (forall|j: int| 0 <= j < gs@.len() ==> #[trigger] gs@[j].name@ != dc) ==> (dc_count(
                    rows@.take(i as int),
                    dc,
                ) == 0 && dc_sum(rows@.take(i as int), *p, dc, 0) == 0 && dc_sum(rows@.take(i as int), *p, dc, 1) == 0
                    && dc_sum(rows@.take(i as int), *p, dc, 2) == 0 && dc_sum(rows@.take(i as int), *p, dc, 3) == 0),
            forall|dc: Seq<u8>| dc_count(rows@.take(i as int), dc) <= i,
        decreases rows@.len() - i,
    {
        let row = &rows[i];
        let ghost pre = rows@.take(i as int);
        let ghost post = rows@.take(i + 1);
        assert(post.drop_last() =~= pre);
        assert(post.last() == rows@[i as int]);
        let ghost dc = row.data_center@;
        let scored = score_row(row, p);
        let e = match scored {
            Some(e) => e,
            None => {
                proof {
                    assert(rows@.take(0) =~= Seq::<HistogramRow>::empty());
                    assert(rows@.take(rows@.len() as int) =~= rows@);
                    lemma_dc_sum_prefix(rows@, *p, 0, i as int, dc, 2);
                    lemma_dc_sum_prefix(rows@, *p, 0, i as int, dc, 3);
                    lemma_dc_sum_prefix(rows@, *p, i + 1, rows@.len() as int, dc, 2);
                    lemma_dc_sum_prefix(rows@, *p, i + 1, rows@.len() as int, dc, 3);
                    assert(dc_sum(post, *p, dc, 2) == dc_sum(pre, *p, dc, 2) + row_field(*row, *p, 2));
                    assert(dc_sum(post, *p, dc, 3) == dc_sum(pre, *p, dc, 3) + row_field(*row, *p, 3));
                    if row_field(*row, *p, 2) > u64::MAX {
                        assert(dc_sum(rows@, *p, dc, 2) > u64::MAX);
                    } else {
                        assert(dc_sum(rows@, *p, dc, 3) > u64::MAX);
                    }
                }
                return None;
            },
        };
        let pos = find_entry(&gs, &row.data_center);
        let ghost old_gs = gs@;
        proof {
            if pos.is_none() {
                assert(forall|k: int| 0 <= k < old_gs.len() ==> #[trigger] old_gs[k].name@ != row.data_center@);
            }
        }
        if let Some(j) = pos {
            let g = &gs[j];
            let t = add_checked(g.total_transactions, e.total_transactions);
            let c = add_checked(g.total_credits, e.total_credits);
            let tc = add_checked(g.total_timely_credits, e.total_timely_credits);
            let l = add_checked(g.total_latency, e.total_latency);
            if t.is_none() || c.is_none() || tc.is_none() || l.is_none() {
                proof {
                    assert(dc == gs@[j as int].name@);
                    assert(group_matches(gs@[j as int], pre, *p));
                    assert forall|f: int| 0 <= f < 4 implies dc_sum(post, *p, dc, f) == dc_sum(pre, *p, dc, f)
                        + row_field(*row, *p, f) by {}
                    assert forall|f: int| 0 <= f < 4 implies dc_sum(post, *p, dc, f) <= dc_sum(rows@, *p, dc, f) by {
                        lemma_dc_sum_prefix(rows@, *p, i + 1, rows@.len() as int, dc, f);
                        assert(rows@.take(rows@.len() as int) =~= rows@);
                    }
                    if t.is_none() {
                        assert(dc_sum(post, *p, dc, 0) == dc_sum(pre, *p, dc, 0) + row_field(*row, *p, 0));
                        assert(dc_sum(post, *p, dc, 0) <= dc_sum(rows@, *p, dc, 0));
                        assert(dc_sum(rows@, *p, dc, 0) > u64::MAX);
                    } else if c.is_none() {
                        assert(dc_sum(post, *p, dc, 1) == dc_sum(pre, *p, dc, 1) + row_field(*row, *p, 1));
                        assert(dc_sum(post, *p, dc, 1) <= dc_sum(rows@, *p, dc, 1));
                        assert(dc_sum(rows@, *p, dc, 1) > u64::MAX);
                    } else if tc.is_none() {
                        assert(dc_sum(post, *p, dc, 2) == dc_sum(pre, *p, dc, 2) + row_field(*row, *p, 2));
                        assert(dc_sum(post, *p, dc, 2) <= dc_sum(rows@, *p, dc, 2));
                        assert(dc_sum(rows@, *p, dc, 2) > u64::MAX);
                    } else {
                        assert(dc_sum(post, *p, dc, 3) == dc_sum(pre, *p, dc, 3) + row_field(*row, *p, 3));
                        assert(dc_sum(post, *p, dc, 3) <= dc_sum(rows@, *p, dc, 3));
                        assert(dc_sum(rows@, *p, dc, 3) > u64::MAX);
                    }
                }
                return None;
            }
            let ng = ScoredEntry {
                name: g.name.clone(),
                total_validators: g.total_validators + 1,
                total_transactions: t.unwrap(),
                total_credits: c.unwrap(),
                total_timely_credits: tc.unwrap(),
                total_latency: l.unwrap(),
            };
            gs.set(j, ng);
            proof {
                assert forall|k: int| 0 <= k < gs@.len() implies group_matches(#[trigger] gs@[k], post, *p) by {
                    if k != j {
                        assert(gs@[k] == old_gs[k]);
                    }
                }
            }
        } else {
            let ng = ScoredEntry {
                name: row.data_center.clone(),
                total_validators: 1,
                total_transactions: e.total_transactions,
                total_credits: e.total_credits,
                total_timely_credits: e.total_timely_credits,
                total_latency: e.total_latency,
            };
            gs.push(ng);
            proof {
                assert forall|k: int| 0 <= k < gs@.len() implies group_matches(#[trigger] gs@[k], post, *p) by {
                    if k < old_gs.len() {
                        assert(gs@[k] == old_gs[k]);
                    } else {
                        assert(dc_count(pre, row.data_center@) == 0);
                    }
                }
            }
        }
        proof {
            assert forall|d: Seq<u8>|
                (forall|j: int| 0 <= j < gs@.len() ==> #[trigger] gs@[j].name@ != d) implies (dc_count(
                post,
                d,
            ) == 0 && dc_sum(post, *p, d, 0) == 0 && dc_sum(post, *p, d, 1) == 0 && dc_sum(post, *p, d, 2) == 0
                && dc_sum(post, *p, d, 3) == 0) by {
                assert forall|j: int| 0 <= j < old_gs.len() implies #[trigger] old_gs[j].name@ != d by {
                    assert(gs@[j].name@ == old_gs[j].name@);
                }
                if let Some(j) = pos {
                    assert(gs@[j as int].name@ == row.data_center@);
                } else {
                    assert(gs@[old_gs.len() as int].name@ == row.data_center@);
                }
                assert(d != row.data_center@);
                assert(dc_count(pre, d) == 0);
                assert(dc_sum(pre, *p, d, 0) == 0 && dc_sum(pre, *p, d, 1) == 0 && dc_sum(pre, *p, d, 2) == 0
                    && dc_sum(pre, *p, d, 3) == 0);
            }
        }
        i = i + 1;
    }
    proof {
        assert(rows@.take(rows@.len() as int) =~= rows@);
        assert forall|d: Seq<u8>, f: int| 0 <= f < 4 implies #[trigger] dc_sum(rows@, *p, d, f) <= u64::MAX by {
            if exists|j: int| 0 <= j < gs@.len() && #[trigger] gs@[j].name@ == d {
                let j = choose|j: int| 0 <= j < gs@.len() && #[trigger] gs@[j].name@ == d;
                assert(group_matches(gs@[j], rows@, *p));
            } else {
                assert(forall|j: int| 0 <= j < gs@.len() ==> #[trigger] gs@[j].name@ != d);
                let all = rows@.take(i as int);
                assert(dc_count(all, d) == 0);
                assert(dc_sum(all, *p, d, 0) == 0 && dc_sum(all, *p, d, 1) == 0 && dc_sum(all, *p, d, 2) == 0
                    && dc_sum(all, *p, d, 3) == 0);
                assert(all == rows@);
            }
        }
    }
    Some(gs)
}

/// Every data center that has a validator among `rows` has an entry in `gs`.
pub open spec fn names_cover(gs: Seq<ScoredEntry>, rows: Seq<HistogramRow>) -> bool {
    forall|dc: Seq<u8>| (forall|j: int| 0 <= j < gs.len() ==> #[trigger] gs[j].name@ != dc) ==> dc_count(rows, dc) == 0
}

/// A data-center entry is its average validator: each field is the sum over
/// its validators divided by their number, which it keeps as is.
pub open spec fn averaged_matches(g: ScoredEntry, rows: Seq<HistogramRow>, p: ScoreParams) -> bool {
    let k = dc_count(rows, g.name@);
    &&& k >= 1
    &&& g.total_validators == k
    &&& g.total_transactions == dc_sum(rows, p, g.name@, 0) / k
    &&& g.total_credits == dc_sum(rows, p, g.name@, 1) / k
    &&& g.total_timely_credits == dc_sum(rows, p, g.name@, 2) / k
    &&& g.total_latency == dc_sum(rows, p, g.name@, 3) / k
}

/// `gs` holds one entry per data center of `rows`, each its average
/// validator.
pub open spec fn data_center_entries(gs: Seq<ScoredEntry>, rows: Seq<HistogramRow>, p: ScoreParams) -> bool {
    &&& forall|j: int| 0 <= j < gs.len() ==> averaged_matches(#[trigger] gs[j], rows, p)
    &&& forall|j: int, k: int| 0 <= j < k < gs.len() ==> #[trigger] gs[j].name@ != #[trigger] gs[k].name@
    &&& names_cover(gs, rows)
}

/// One entry per data center, in order of first appearance, holding the
/// average validator of that data center; `None` where some sum over a data
/// center does not fit in 64 bits.
pub fn average_by_data_center(rows: &Vec<HistogramRow>, p: &ScoreParams) -> (r: Option<Vec<ScoredEntry>>)
    requires
        rows@.len() <= u64::MAX,
        p.wf(),
    ensures
        r.is_some() <==> dc_sums_fit(rows@, *p),
        r matches Some(gs) ==> data_center_entries(gs@, rows@, *p),
{
    let sums = match sum_by_data_center(rows, p) {
        Some(sums) => sums,
        None => return None,
    };
    let mut out: Vec<ScoredEntry> = Vec::new();
    let mut j: usize = 0;
    while j < sums.len()
        invariant
            0 <= j <= sums@.len(),
            out@.len() == j,
            forall|k: int| 0 <= k < sums@.len() ==> group_matches(#[trigger] sums@[k], rows@, *p),
            forall|k: int| 0 <= k < sums@.len() ==> dc_count(rows@, #[trigger] sums@[k].name@) >= 1,
            forall|a: int, b: int|
                0 <= a < b < sums@.len() ==> #[trigger] sums@[a].name@ != #[trigger] sums@[b].name@,
            forall|dc: Seq<u8>|
                (forall|k: int| 0 <= k < sums@.len() ==> #[trigger] sums@[k].name@ != dc) ==> dc_count(
                    rows@,
                    dc,
                ) == 0,
            forall|k: int| 0 <= k < j ==> #[trigger] out@[k].name@ == sums@[k].name@,
            forall|k: int| 0 <= k < j ==> averaged_matches(#[trigger] out@[k], rows@, *p),
        decreases sums@.len() - j,
    {
        let g = &sums[j];
        proof {
            assert(group_matches(sums@[j as int], rows@, *p));
            assert(dc_count(rows@, sums@[j as int].name@) >= 1);
        }
        let k = g.total_validators;
        out.push(
            ScoredEntry {
                name: g.name.clone(),
                total_validators: k,
                total_transactions: g.total_transactions / k,
                total_credits: g.total_credits / k,
                total_timely_credits: g.total_timely_credits / k,
                total_latency: g.total_latency / k,
            },
        );
        j = j + 1;
    }
    proof {
        assert forall|a: int, b: int| 0 <= a < b < out@.len() implies #[trigger] out@[a].name@
            != #[trigger] out@[b].name@ by {
            assert(out@[a].name@ == sums@[a].name@);
            assert(out@[b].name@ == sums@[b].name@);
        }
        assert forall|dc: Seq<u8>|
            (forall|k: int| 0 <= k < out@.len() ==> #[trigger] out@[k].name@ != dc) implies dc_count(rows@, dc)
            == 0 by {
            assert forall|k: int| 0 <= k < sums@.len() implies #[trigger] sums@[k].name@ != dc by {
                assert(out@[k].name@ == sums@[k].name@);
            }
        }
        assert(forall|k: int| 0 <= k < out@.len() ==> averaged_matches(#[trigger] out@[k], rows@, *p));
        assert(names_cover(out@, rows@));
    }
    Some(out)
}

/// `es` holds one validator entry per histogram line, in input order.
pub open spec fn validator_entries(es: Seq<ScoredEntry>, rows: Seq<HistogramRow>, p: ScoreParams) -> bool {
    &&& es.len() == rows.len()
    &&& forall|i: int|
        0 <= i < rows.len() ==> {
            &&& (#[trigger] es[i]).name@ == rows[i].pubkey@
            &&& es[i].total_validators == 1
            &&& es[i].total_transactions == row_field(rows[i], p, 0)
            &&& es[i].total_credits == row_field(rows[i], p, 1)
            &&& es[i].total_timely_credits == row_field(rows[i], p, 2)
            &&& es[i].total_latency == row_field(rows[i], p, 3)
        }
}

/// Whether every line's timely credits and latency fit in 64 bits.
pub open spec fn rows_fit(rows: Seq<HistogramRow>, p: ScoreParams) -> bool {
    forall|i: int| 0 <= i < rows.len() ==> row_field(#[trigger] rows[i], p, 2) <= u64::MAX && row_field(rows[i], p, 3) <= u64::MAX
}

/// One validator entry per histogram line, in input order; `None` where the
/// timely credits or the latency of some line do not fit in 64 bits.
pub fn score_validators(rows: &Vec<HistogramRow>, p: &ScoreParams) -> (r: Option<Vec<ScoredEntry>>)
    requires
        p.wf(),
    ensures
        r.is_some() <==> rows_fit(rows@, *p),
        r matches Some(es) ==> validator_entries(es@, rows@, *p),
{
    let mut out: Vec<ScoredEntry> = Vec::new();
    let mut i: usize = 0;
    while i < rows.len()
        invariant
            0 <= i <= rows@.len(),
            p.wf(),
            out@.len() == i,
            forall|k: int|
                0 <= k < i ==> row_field(#[trigger] rows@[k], *p, 2) <= u64::MAX && row_field(rows@[k], *p, 3)
                    <= u64::MAX,
            forall|k: int|
                0 <= k < i ==> {
                    &&& (#[trigger] out@[k]).name@ == rows@[k].pubkey@
                    &&& out@[k].total_validators == 1
                    &&& out@[k].total_transactions == row_field(rows@[k], *p, 0)
                    &&& out@[k].total_credits == row_field(rows@[k], *p, 1)
                    &&& out@[k].total_timely_credits == row_field(rows@[k], *p, 2)
                    &&& out@[k].total_latency == row_field(rows@[k], *p, 3)
                },
        decreases rows@.len() - i,
    {
        match score_row(&rows[i], p) {
            Some(e) => out.push(e),
            None => return None,
        }
        i = i + 1;
    }
    Some(out)
}

/// Fixed-point scale: one whole unit.
pub const FIXED_ONE: u64 = 1_000_000_000_000;

/// `num / den` in fixed point, truncated; undefined where `den` is zero.
pub open spec fn fixed_ratio(num: int, den: int) -> Option<int> {
    if den == 0 {
        None
    } else {
        Some((num * FIXED_ONE) / den)
    }
}

/// A share of a maximum never exceeds one whole unit.
pub proof fn lemma_share_at_most_one(num: int, max: int)
    requires
        0 <= num <= max,
        max > 0,
    ensures
        fixed_ratio(num, max) matches Some(v) && 0 <= v <= FIXED_ONE,
{
    let one = FIXED_ONE as int;
    assert(num * one <= max * one) by (nonlinear_arith)
        requires
            num <= max,
            one >= 0,
    ;
    assert(0 <= num * one) by (nonlinear_arith)
        requires
            num >= 0,
            one >= 0,
    ;
    lemma_div_is_ordered(num * one, max * one, max);
    lemma_div_is_ordered(0, num * one, max);
    assert((max * one) / max == one) by (nonlinear_arith)
        requires
            max > 0,
    ;
}

fn fixed_ratio_of(num: u64, den: u64) -> (r: Option<u128>)
    ensures
        r matches Some(v) ==> fixed_ratio(num as int, den as int) == Some(v as int),
        r is None <==> fixed_ratio(num as int, den as int) is None,
{
    if den == 0 {
        None
    } else {
        proof {
            lemma_mul_fits(num as int, FIXED_ONE as int);
        }
        Some((num as u128) * (FIXED_ONE as u128) / (den as u128))
    }
}

/// The largest credits of a set of entries.
pub open spec fn max_credits_of(es: Seq<ScoredEntry>) -> int
    decreases es.len(),
{
    if es.len() == 0 {
        0
    } else {
        let m = max_credits_of(es.drop_last());
        let c = es.last().total_credits as int;
        if c > m { c } else { m }
    }
}

/// The largest timely credits of a set of entries.
pub open spec fn max_timely_of(es: Seq<ScoredEntry>) -> int
    decreases es.len(),
{
    if es.len() == 0 {
        0
    } else {
        let m = max_timely_of(es.drop_last());
        let c = es.last().total_timely_credits as int;
        if c > m { c } else { m }
    }
}

proof fn lemma_max_bounds(es: Seq<ScoredEntry>)
    ensures
        forall|i: int| 0 <= i < es.len() ==> (#[trigger] es[i]).total_credits <= max_credits_of(es),
        forall|i: int| 0 <= i < es.len() ==> (#[trigger] es[i]).total_timely_credits <= max_timely_of(es),
        0 <= max_credits_of(es) <= u64::MAX,
        0 <= max_timely_of(es) <= u64::MAX,
    decreases es.len(),
{
    if es.len() > 0 {
        lemma_max_bounds(es.drop_last());
        assert forall|i: int| 0 <= i < es.len() - 1 implies #[trigger] es[i] == es.drop_last()[i] by {}
    }
}

/// The figures derived from an entry when it is reported: average latency
/// per credit and the shares of the run's largest credits and timely
/// credits, in fixed point; `None` marks an undefined ratio.
pub struct Ratios {
    pub avg_latency: Option<u128>,
    pub normal_pct: Option<u64>,
    pub timely_pct: Option<u64>,
}

/// A fixed-point figure as an integer, if defined.
pub open spec fn wide_int(o: Option<u128>) -> Option<int> {
    match o {
        Some(v) => Some(v as int),
        None => None,
    }
}

/// A fixed-point share as an integer, if defined.
pub open spec fn narrow_int(o: Option<u64>) -> Option<int> {
    match o {
        Some(v) => Some(v as int),
        None => None,
    }
}

/// `r` holds the figures reported for `e` in the run `es`.
pub open spec fn ratios_match(r: Ratios, e: ScoredEntry, es: Seq<ScoredEntry>) -> bool {
    &&& wide_int(r.avg_latency) == fixed_ratio(e.total_latency as int, e.total_credits as int)
    &&& narrow_int(r.normal_pct) == fixed_ratio(e.total_credits as int, max_credits_of(es))
    &&& narrow_int(r.timely_pct) == fixed_ratio(e.total_timely_credits as int, max_timely_of(es))
}

/// The reported figures of every entry against the run's maxima; `None` on
/// an empty run, which has no maximum.
pub fn report_ratios(es: &Vec<ScoredEntry>) -> (r: Option<Vec<Ratios>>)
    ensures
        r is None <==> es@.len() == 0,
        r matches Some(rs) ==> {
            &&& rs@.len() == es@.len()
            &&& forall|i: int| 0 <= i < es@.len() ==> ratios_match(#[trigger] rs@[i], es@[i], es@)
            &&& forall|i: int|
                0 <= i < es@.len() ==> ((#[trigger] rs@[i]).normal_pct matches Some(v) ==> v <= FIXED_ONE)
                    && (rs@[i].timely_pct matches Some(v) ==> v <= FIXED_ONE)
        },
{
    if es.len() == 0 {
        return None;
    }
    let mut max_c: u64 = 0;
    let mut max_t: u64 = 0;
    let mut i: usize = 0;
    while i < es.len()
        invariant
            0 <= i <= es@.len(),
            max_c == max_credits_of(es@.take(i as int)),
            max_t == max_timely_of(es@.take(i as int)),
        decreases es@.len() - i,
    {
        assert(es@.take(i + 1).drop_last() =~= es@.take(i as int));
        if es[i].total_credits > max_c {
            max_c = es[i].total_credits;
        }
        if es[i].total_timely_credits > max_t {
            max_t = es[i].total_timely_credits;
        }
        i = i + 1;
    }
    proof {
        assert(es@.take(es@.len() as int) =~= es@);
        lemma_max_bounds(es@);
    }
    let mut out: Vec<Ratios> = Vec::new();
    let mut j: usize = 0;
    while j < es.len()
        invariant
            0 <= j <= es@.len(),
            out@.len() == j,
            max_c == max_credits_of(es@),
            max_t == max_timely_of(es@),
            forall|i: int| 0 <= i < es@.len() ==> (#[trigger] es@[i]).total_credits <= max_credits_of(es@),
            forall|i: int| 0 <= i < es@.len() ==> (#[trigger] es@[i]).total_timely_credits <= max_timely_of(es@),
            forall|i: int| 0 <= i < j ==> ratios_match(#[trigger] out@[i], es@[i], es@),
            forall|i: int|
                0 <= i < j ==> ((#[trigger] out@[i]).normal_pct matches Some(v) ==> v <= FIXED_ONE) && (
                out@[i].timely_pct matches Some(v) ==> v <= FIXED_ONE),
        decreases es@.len() - j,
    {
        let e = &es[j];
        let lat = fixed_ratio_of(e.total_latency, e.total_credits);
        let nr = fixed_ratio_of(e.total_credits, max_c);
        let tr = fixed_ratio_of(e.total_timely_credits, max_t);
        proof {
            assert(e.total_credits <= max_c);
            assert(e.total_timely_credits <= max_t);
            if max_c > 0 {
                lemma_share_at_most_one(e.total_credits as int, max_c as int);
            }
            if max_t > 0 {
                lemma_share_at_most_one(e.total_timely_credits as int, max_t as int);
            }
        }
        let normal_pct: Option<u64> = match nr {
            Some(v) => Some(v as u64),
            None => None,
        };
        let timely_pct: Option<u64> = match tr {
            Some(v) => Some(v as u64),
            None => None,
        };
        out.push(Ratios { avg_latency: lat, normal_pct, timely_pct });
        j = j + 1;
    }
    Some(out)
}

/// Why a run could not be scored.
#[derive(Debug, PartialEq, Eq, Structural)]
pub enum ScoreError {
    /// A total does not fit in 64 bits.
    Overflow,
    /// There is nothing to score, so no maximum to report against.
    Empty,
}

/// The entries of a run and the figures reported for each.
pub struct ScoredRun {
    pub entries: Vec<ScoredEntry>,
    pub ratios: Vec<Ratios>,
}

proof fn lemma_dc_count_last(rows: Seq<HistogramRow>)
    requires
        rows.len() > 0,
    ensures
        dc_count(rows, rows.last().data_center@) >= 1,
{
    lemma_dc_count_nonneg(rows.drop_last(), rows.last().data_center@);
}

proof fn lemma_dc_count_nonneg(rows: Seq<HistogramRow>, dc: Seq<u8>)
    ensures
        dc_count(rows, dc) >= 0,
    decreases rows.len(),
{
    if rows.len() > 0 {
        lemma_dc_count_nonneg(rows.drop_last(), dc);
    }
}

/// Scores a run of histogram lines by validator or by data center, and
/// reports each entry against the run's maxima.
pub fn score_run(rows: &Vec<HistogramRow>, by_validator: bool, p: &ScoreParams) -> (r: Result<ScoredRun, ScoreError>)
    requires
        p.wf(),
        rows@.len() <= u64::MAX,
    ensures
        r == Err::<ScoredRun, ScoreError>(ScoreError::Empty) <==> rows@.len() == 0,
        r == Err::<ScoredRun, ScoreError>(ScoreError::Overflow) <==> rows@.len() > 0 && (if by_validator {
            !rows_fit(rows@, *p)
        } else {
            !dc_sums_fit(rows@, *p)
        }),
        r matches Ok(run) ==> {
            &&& by_validator ==> validator_entries(run.entries@, rows@, *p)
            &&& !by_validator ==> data_center_entries(run.entries@, rows@, *p)
            &&& run.ratios@.len() == run.entries@.len()
            &&& forall|i: int|
                0 <= i < run.entries@.len() ==> ratios_match(#[trigger] run.ratios@[i], run.entries@[i], run.entries@)
        },
{
    if rows.len() == 0 {
        return Err(ScoreError::Empty);
    }
    let scored = if by_validator {
        score_validators(rows, p)
    } else {
        average_by_data_center(rows, p)
    };
    let entries = match scored {
        Some(es) => es,
        None => return Err(ScoreError::Overflow),
    };
    proof {
        if !by_validator && entries@.len() == 0 {
            lemma_dc_count_last(rows@);
            assert(forall|j: int| 0 <= j < entries@.len() ==> #[trigger] entries@[j].name@ != rows@.last().data_center@);
        }
    }
    let ratios = match report_ratios(&entries) {
        Some(rs) => rs,
        None => return Err(ScoreError::Empty),
    };
    Ok(ScoredRun { entries, ratios })
}

} // verus!
