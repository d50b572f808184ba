use vstd::prelude::*;
use vstd::arithmetic::div_mod::lemma_div_is_ordered;
use crate::text::bytes_equal;
use crate::ranking::DualRanking;

verus! {

/// One reported entry of one period, its figures in fixed point.
pub struct PeriodRow {
    pub name: Vec<u8>,
    pub total_validators: u64,
    pub total_normal_credits: u64,
    pub total_timely_credits: u64,
    /// Average latency per credit; `None` where it was undefined.
    pub avg_latency: Option<u64>,
    pub normal_pct: u64,
    pub timely_pct: u64,
}

/// What the periods of one name add up to.
pub struct Tally {
    pub validators: int,
    pub normal: int,
    pub timely: int,
    /// Latency weighted by each period's credits; `None` once a period had
    /// an undefined latency.
    pub latency: Option<int>,
    pub normal_credits: int,
    pub timely_credits: int,
    pub periods: int,
}

/// The tally of no periods.
pub open spec fn empty_tally() -> Tally {
    Tally {
        validators: 0,
        normal: 0,
        timely: 0,
        latency: Some(0),
        normal_credits: 0,
        timely_credits: 0,
        periods: 0,
    }
}

/// The tally `t` with one more period `r` folded in.
pub open spec fn absorb(t: Tally, r: PeriodRow) -> Tally {
    Tally {
        validators: t.validators + r.total_validators,
        normal: t.normal + r.normal_pct,
        timely: t.timely + r.timely_pct,
        latency: match (t.latency, r.avg_latency) {
            (Some(a), Some(l)) => Some(a + l * r.total_normal_credits),
            _ => None,
        },
        normal_credits: t.normal_credits + r.total_normal_credits,
        timely_credits: t.timely_credits + r.total_timely_credits,
        periods: t.periods + 1,
    }
}

/// Folding in two periods gives the same tally in either order.
pub proof fn lemma_absorb_commutes(t: Tally, a: PeriodRow, b: PeriodRow)
    ensures
        absorb(absorb(t, a), b) == absorb(absorb(t, b), a),
{
}

/// The tally of every period of `name` among `rows`.
pub open spec fn tally_of(rows: Seq<PeriodRow>, name: Seq<u8>) -> Tally
    decreases rows.len(),
{
    if rows.len() == 0 {
        empty_tally()
    } else if rows.last().name@ == name {
        absorb(tally_of(rows.drop_last(), name), rows.last())
    } else {
        tally_of(rows.drop_last(), name)
    }
}

/// Swapping two neighbouring periods leaves every tally as it was.
pub proof fn lemma_tally_swap(rows: Seq<PeriodRow>, i: int, name: Seq<u8>)
    requires
        0 <= i,
        i + 1 < rows.len(),
    ensures
        tally_of(rows.update(i, rows[i + 1]).update(i + 1, rows[i]), name) == tally_of(rows, name),
    decreases rows.len(),
{
    let s = rows.update(i, rows[i + 1]).update(i + 1, rows[i]);
    if i + 2 < rows.len() {
        lemma_tally_swap(rows.drop_last(), i, name);
        assert(s.drop_last() =~= rows.drop_last().update(i, rows[i + 1]).update(i + 1, rows[i]));
        assert(s.last() == rows.last());
    } else {
        let base = rows.take(i);
        assert(rows.drop_last().drop_last() =~= base);
        assert(s.drop_last().drop_last() =~= base);
        assert(s.drop_last().last() == rows[i + 1]);
        assert(s.last() == rows[i]);
        let t = tally_of(base, name);
        reveal_with_fuel(tally_of, 2);
        if rows[i].name@ == name && rows[i + 1].name@ == name {
            lemma_absorb_commutes(t, rows[i], rows[i + 1]);
        }
    }
}

/// Two tallies added field by field; an undefined latency stays undefined.
pub open spec fn merge(a: Tally, b: Tally) -> Tally {
    Tally {
        validators: a.validators + b.validators,
        normal: a.normal + b.normal,
        timely: a.timely + b.timely,
        latency: match (a.latency, b.latency) {
            (Some(x), Some(y)) => Some(x + y),
            _ => None,
        },
        normal_credits: a.normal_credits + b.normal_credits,
        timely_credits: a.timely_credits + b.timely_credits,
        periods: a.periods + b.periods,
    }
}

/// The tally of two batches of periods fed one after the other is the merge
/// of their tallies; merging is commutative and associative, so batches may
/// be fed in any order and grouping.
pub proof fn lemma_batches_merge(a: Seq<PeriodRow>, b: Seq<PeriodRow>, c: Seq<PeriodRow>, name: Seq<u8>)
    ensures
        tally_of(a + b, name) == merge(tally_of(a, name), tally_of(b, name)),
        tally_of(a + b, name) == tally_of(b + a, name),
        tally_of((a + b) + c, name) == tally_of(a + (b + c), name),
{
    lemma_concat_tally(a, b, name);
    lemma_concat_tally(b, a, name);
    lemma_concat_tally(a + b, c, name);
    lemma_concat_tally(b, c, name);
    lemma_concat_tally(a, b + c, name);
    assert((a + b) + c =~= a + (b + c));
}

proof fn lemma_concat_tally(a: Seq<PeriodRow>, b: Seq<PeriodRow>, name: Seq<u8>)
    ensures
        tally_of(a + b, name) == merge(tally_of(a, name), tally_of(b, name)),
    decreases b.len(),
{
    if b.len() == 0 {
        assert(a + b =~= a);
    } else {
        lemma_concat_tally(a, b.drop_last(), name);
        assert((a + b).drop_last() =~= a + b.drop_last());
        assert((a + b).last() == b.last());
    }
}

/// Whether every field of a tally fits the accumulator.
pub open spec fn tally_fits(t: Tally) -> bool {
    &&& t.validators <= u128::MAX
    &&& t.normal <= u128::MAX
    &&& t.timely <= u128::MAX
    &&& (t.latency matches Some(l) ==> l <= u128::MAX)
    &&& t.normal_credits <= u128::MAX
    &&& t.timely_credits <= u128::MAX
    &&& t.periods <= u64::MAX
}

/// Whether every tally, at every point of the input, fits the accumulator.
pub open spec fn collate_fits(rows: Seq<PeriodRow>) -> bool {
    forall|name: Seq<u8>, k: int| 0 <= k <= rows.len() ==> tally_fits(#[trigger] tally_of(rows.take(k), name))
}

/// The running totals of one name.
pub struct Accumulator {
    pub name: Vec<u8>,
    pub validators: u128,
    pub normal: u128,
    pub timely: u128,
    pub latency: Option<u128>,
    pub normal_credits: u128,
    pub timely_credits: u128,
    pub periods: u64,
}

impl Accumulator {
    /// The running totals as a tally.
    pub open spec fn tally(&self) -> Tally {
        Tally {
            validators: self.validators as int,
            normal: self.normal as int,
            timely: self.timely as int,
            latency: match self.latency {
                Some(l) => Some(l as int),
                None => None,
            },
            normal_credits: self.normal_credits as int,
            timely_credits: self.timely_credits as int,
            periods: self.periods as int,
        }
    }
}

fn add_wide(a: u128, b: u128) -> (r: Option<u128>)
    ensures
        r.is_some() <==> a + b <= u128::MAX,
        r matches Some(v) ==> v == a + b,
{
    if a > u128::MAX - b {
        None
    } else {
        Some(a + b)
    }
}

/// Folds period `r` into `acc`, or `None` where a total would not fit.
fn absorb_row(acc: &Accumulator, r: &PeriodRow) -> (out: Option<Accumulator>)
    ensures
        out.is_some() <==> tally_fits(absorb(acc.tally(), *r)),
        out matches Some(a) ==> a.tally() == absorb(acc.tally(), *r) && a.name@ == acc.name@,
{
    let v = add_wide(acc.validators, r.total_validators as u128);
    let n = add_wide(acc.normal, r.normal_pct as u128);
    let t = add_wide(acc.timely, r.timely_pct as u128);
    let nc = add_wide(acc.normal_credits, r.total_normal_credits as u128);
    let tc = add_wide(acc.timely_credits, r.total_timely_credits as u128);
    let mut lat_ok = true;
    let lat: Option<u128> = match (acc.latency, r.avg_latency) {
        (Some(a), Some(l)) => {
            proof {
                assert((l as int) * (r.total_normal_credits as int) <= u64::MAX * u64::MAX) by (nonlinear_arith)
                    requires
                        l <= u64::MAX,
                        r.total_normal_credits <= u64::MAX,
                ;
            }
            let w = (l as u128) * (r.total_normal_credits as u128);
            match add_wide(a, w) {
                Some(x) => Some(x),
                None => {
                    lat_ok = false;
                    None
                },
            }
        },
        _ => None,
    };
    if v.is_none() || n.is_none() || t.is_none() || nc.is_none() || tc.is_none() || !lat_ok || acc.periods
        == u64::MAX {
        return None;
    }
    Some(
        Accumulator {
            name: acc.name.clone(),
            validators: v.unwrap(),
            normal: n.unwrap(),
            timely: t.unwrap(),
            latency: lat,
            normal_credits: nc.unwrap(),
            timely_credits: tc.unwrap(),
            periods: acc.periods + 1,
        },
    )
}

/// Why collation stopped.
#[derive(Debug, PartialEq, Eq, Structural)]
pub enum CollateError {
    /// A running total would pass its largest value.
    Overflow,
}

/// Position of the accumulator named `name`, if any.
fn find_accumulator(accs: &Vec<Accumulator>, name: &Vec<u8>) -> (r: Option<usize>)
    ensures
        r matches Some(j) ==> j < accs@.len() && accs@[j as int].name@ == name@,
        r is None ==> forall|k: int| 0 <= k < accs@.len() ==> #[trigger] accs@[k].name@ != name@,
{
    let mut j: usize = 0;
    while j < accs.len()
        invariant
            0 <= j <= accs@.len(),
            forall|k: int| 0 <= k < j ==> #[trigger] accs@[k].name@ != name@,
        decreases accs@.len() - j,
    {
        if bytes_equal(&accs[j].name, name) {
            return Some(j);
        }
        j = j + 1;
    }
    None
}

/// Every name among `rows` has an accumulator in `accs`.
pub open spec fn accumulators_cover(accs: Seq<Accumulator>, rows: Seq<PeriodRow>) -> bool {
    forall|name: Seq<u8>|
        (forall|j: int| 0 <= j < accs.len() ==> #[trigger] accs[j].name@ != name) ==> tally_of(rows, name)
            == empty_tally()
}

/// Folds every period into one accumulator per name, in order of first
/// appearance; refused where a running total would not fit.
pub fn accumulate(rows: &Vec<PeriodRow>) -> (r: Result<Vec<Accumulator>, CollateError>)
    ensures
        r is Err <==> !collate_fits(rows@),
        r matches Ok(accs) ==> forall|j: int|
            0 <= j < accs@.len() ==> (#[trigger] accs@[j]).tally() == tally_of(rows@, accs@[j].name@)
                && accs@[j].periods >= 1,
        r matches Ok(accs) ==> forall|j: int, k: int|
            0 <= j < k < accs@.len() ==> #[trigger] accs@[j].name@ != #[trigger] accs@[k].name@,
        r matches Ok(accs) ==> accumulators_cover(accs@, rows@),
{
    let mut accs: Vec<Accumulator> = Vec::new();
    let mut i: usize = 0;
    while i < rows.len()
        invariant
            0 <= i <= rows@.len(),
            forall|j: int|
                0 <= j < accs@.len() ==> (#[trigger] accs@[j]).tally() == tally_of(rows@.take(i as int), accs@[j].name@)
                    && accs@[j].periods >= 1,
            forall|j: int, k: int|
                0 <= j < k < accs@.len() ==> #[trigger] accs@[j].name@ != #[trigger] accs@[k].name@,
            accumulators_cover(accs@, rows@.take(i as int)),
            forall|name: Seq<u8>, k: int|
                0 <= k <= i ==> tally_fits(#[trigger] tally_of(rows@.take(k), name)),
        decreases rows@.len() - i,
    {
        let row = &rows[i];
        let ghost pre = rows@.take(i as int);
        let ghost post = rows@.take(i + 1);
        assert(post.drop_last() =~= pre);
        assert(post.last() == rows@[i as int]);
        assert(post.take(i as int) =~= pre);
        let pos = find_accumulator(&accs, &row.name);
        let ghost old_accs = accs@;
        let base: Accumulator = match pos {
            Some(j) => Accumulator {
                name: accs[j].name.clone(),
                validators: accs[j].validators,
                normal: accs[j].normal,
                timely: accs[j].timely,
                latency: accs[j].latency,
                normal_credits: accs[j].normal_credits,
                timely_credits: accs[j].timely_credits,
                periods: accs[j].periods,
            },
            None => Accumulator {
                name: row.name.clone(),
                validators: 0,
                normal: 0,
                timely: 0,
                latency: Some(0),
                normal_credits: 0,
                timely_credits: 0,
                periods: 0,
            },
        };
        proof {
            if pos.is_none() {
                assert(forall|k: int| 0 <= k < old_accs.len() ==> #[trigger] old_accs[k].name@ != row.name@);
            }
            assert(base.tally() == tally_of(pre, row.name@));
        }
        let next = match absorb_row(&base, row) {
            Some(a) => a,
            None => {
                proof {
                    assert(tally_of(post, row.name@) == absorb(tally_of(pre, row.name@), *row));
                    assert(rows@.take(i + 1) == post);
                    assert(!tally_fits(tally_of(rows@.take(i + 1), row.name@)));
                }
                return Err(CollateError::Overflow);
            },
        };
        match pos {
            Some(j) => {
                accs.set(j, next);
            },
            None => {
                accs.push(next);
            },
        }
        proof {
            assert forall|j: int| 0 <= j < accs@.len() implies (#[trigger] accs@[j]).tally() == tally_of(
                post,
                accs@[j].name@,
            ) && accs@[j].periods >= 1 by {
                if j < old_accs.len() && (pos is None || j != pos->0) {
                    assert(accs@[j] == old_accs[j]);
                    assert(old_accs[j].name@ != row.name@);
                }
            }
            assert forall|a: int, b: int| 0 <= a < b < accs@.len() implies #[trigger] accs@[a].name@
                != #[trigger] accs@[b].name@ by {
                if b < old_accs.len() {
                    assert(old_accs[a].name@ != old_accs[b].name@);
                }
            }
            assert forall|name: Seq<u8>|
                (forall|j: int| 0 <= j < accs@.len() ==> #[trigger] accs@[j].name@ != name) implies tally_of(
                post,
                name,
            ) == empty_tally() by {
                assert forall|j: int| 0 <= j < old_accs.len() implies #[trigger] old_accs[j].name@ != name by {
                    assert(accs@[j].name@ == old_accs[j].name@);
                }
                if let Some(j) = pos {
                    assert(accs@[j as int].name@ == row.name@);
                } else {
                    assert(accs@[old_accs.len() as int].name@ == row.name@);
                }
                assert(name != row.name@);
                assert(tally_of(pre, name) == empty_tally());
            }
            assert forall|name: Seq<u8>, k: int| 0 <= k <= i + 1 implies tally_fits(
                #[trigger] tally_of(rows@.take(k), name),
            ) by {
                if k == i + 1 {
                    assert(rows@.take(k) == post);
                    if name != row.name@ {
                        assert(tally_of(post, name) == tally_of(pre, name));
                        assert(tally_fits(tally_of(rows@.take(i as int), name)));
                    }
                }
            }
        }
        i = i + 1;
    }
    proof {
        assert(rows@.take(rows@.len() as int) =~= rows@);
    }
    Ok(accs)
}

/// Every average a tally yields fits in 64 bits.
pub open spec fn tally_bounded(t: Tally) -> bool {
    &&& 0 <= t.validators <= t.periods * u64::MAX
    &&& 0 <= t.normal <= t.periods * u64::MAX
    &&& 0 <= t.timely <= t.periods * u64::MAX
    &&& (t.latency matches Some(l) ==> 0 <= l <= t.normal_credits * u64::MAX)
    &&& 0 <= t.normal_credits
    &&& 0 <= t.periods
}

proof fn lemma_tally_bounded(rows: Seq<PeriodRow>, name: Seq<u8>)
    ensures
        tally_bounded(tally_of(rows, name)),
    decreases rows.len(),
{
    if rows.len() > 0 {
        lemma_tally_bounded(rows.drop_last(), name);
        let t = tally_of(rows.drop_last(), name);
        let r = rows.last();
        if r.name@ == name {
            if let (Some(a), Some(l)) = (t.latency, r.avg_latency) {
                assert(l * r.total_normal_credits <= r.total_normal_credits * u64::MAX) by (nonlinear_arith)
                    requires
                        l <= u64::MAX,
                        r.total_normal_credits >= 0,
                ;
                assert(0 <= l * r.total_normal_credits) by (nonlinear_arith)
                    requires
                        l >= 0,
                        r.total_normal_credits >= 0,
                ;
                assert((t.normal_credits + r.total_normal_credits) * u64::MAX == t.normal_credits * u64::MAX
                    + r.total_normal_credits * u64::MAX) by (nonlinear_arith);
            }
            assert((t.periods + 1) * u64::MAX == t.periods * u64::MAX + u64::MAX) by (nonlinear_arith);
        }
    }
}

/// One name's figures over all periods: simple averages of validators and
/// shares, and the credit-weighted average latency.
pub struct Collated {
    pub name: Vec<u8>,
    pub total_validators: u64,
    pub normal_pct: u64,
    pub timely_pct: u64,
    /// `None` where a period had an undefined latency or no period had
    /// credits.
    pub avg_latency: Option<u64>,
    pub total_normal_credits: u128,
    pub total_timely_credits: u128,
    pub total_periods: u64,
}

/// The collated figures of a tally of at least one period.
pub open spec fn finalized(c: Collated, t: Tally) -> bool {
    &&& c.total_validators == t.validators / t.periods
    &&& c.normal_pct == t.normal / t.periods
    &&& c.timely_pct == t.timely / t.periods
    &&& c.avg_latency == match t.latency {
        Some(l) => if t.normal_credits > 0 {
            Some((l / t.normal_credits) as u64)
        } else {
            None
        },
        None => None,
    }
    &&& c.total_normal_credits == t.normal_credits
    &&& c.total_timely_credits == t.timely_credits
    &&& c.total_periods == t.periods
}

proof fn lemma_average_fits(sum: int, k: int)
    requires
        k >= 1,
        0 <= sum <= k * u64::MAX,
    ensures
        0 <= sum / k <= u64::MAX,
{
    lemma_div_is_ordered(sum, k * u64::MAX, k);
    lemma_div_is_ordered(0, sum, k);
    assert((k * u64::MAX) / k == u64::MAX) by (nonlinear_arith)
        requires
            k >= 1,
    ;
}

/// The collated figures of one accumulator.
fn finalize(acc: &Accumulator, rows: Ghost<Seq<PeriodRow>>) -> (c: Collated)
    requires
        acc.tally() == tally_of(rows@, acc.name@),
        acc.periods >= 1,
    ensures
        c.name@ == acc.name@,
        finalized(c, acc.tally()),
{
    proof {
        lemma_tally_bounded(rows@, acc.name@);
        lemma_average_fits(acc.validators as int, acc.periods as int);
        lemma_average_fits(acc.normal as int, acc.periods as int);
        lemma_average_fits(acc.timely as int, acc.periods as int);
    }
    let k = acc.periods as u128;
    let avg_latency: Option<u64> = match acc.latency {
        Some(l) => if acc.normal_credits > 0 {
            proof {
                lemma_average_fits(l as int, acc.normal_credits as int);
            }
            Some((l / acc.normal_credits) as u64)
        } else {
            None
        },
        None => None,
    };
    Collated {
        name: acc.name.clone(),
        total_validators: (acc.validators / k) as u64,
        normal_pct: (acc.normal / k) as u64,
        timely_pct: (acc.timely / k) as u64,
        avg_latency,
        total_normal_credits: acc.normal_credits,
        total_timely_credits: acc.timely_credits,
        total_periods: acc.periods,
    }
}

/// One collated entry per name over all periods, in order of first
/// appearance; refused where a running total would not fit.
pub fn collate(rows: &Vec<PeriodRow>) -> (r: Result<Vec<Collated>, CollateError>)
    ensures
        r is Err <==> !collate_fits(rows@),
        r matches Ok(cs) ==> forall|j: int|
            0 <= j < cs@.len() ==> finalized(#[trigger] cs@[j], tally_of(rows@, cs@[j].name@)) && tally_of(
                rows@,
                cs@[j].name@,
            ).periods >= 1,
        r matches Ok(cs) ==> forall|j: int, k: int|
            0 <= j < k < cs@.len() ==> #[trigger] cs@[j].name@ != #[trigger] cs@[k].name@,
        r matches Ok(cs) ==> forall|name: Seq<u8>|
            (forall|j: int| 0 <= j < cs@.len() ==> #[trigger] cs@[j].name@ != name) ==> tally_of(rows@, name)
                == empty_tally(),
{
    let accs = match accumulate(rows) {
        Ok(accs) => accs,
        Err(e) => return Err(e),
    };
    let mut out: Vec<Collated> = Vec::new();
    let mut j: usize = 0;
    while j < accs.len()
        invariant
            0 <= j <= accs@.len(),
            out@.len() == j,
            forall|k: int|
                0 <= k < accs@.len() ==> (#[trigger] accs@[k]).tally() == tally_of(rows@, accs@[k].name@)
                    && accs@[k].periods >= 1,
            forall|a: int, b: int|
                0 <= a < b < accs@.len() ==> #[trigger] accs@[a].name@ != #[trigger] accs@[b].name@,
            accumulators_cover(accs@, rows@),
            forall|k: int| 0 <= k < j ==> #[trigger] out@[k].name@ == accs@[k].name@,
            forall|k: int| 0 <= k < j ==> finalized(#[trigger] out@[k], accs@[k].tally()),
        decreases accs@.len() - j,
    {
        let c = finalize(&accs[j], Ghost(rows@));
        out.push(c);
        j = j + 1;
    }
    proof {
        assert forall|k: int| 0 <= k < out@.len() implies finalized(#[trigger] out@[k], tally_of(rows@, out@[k].name@))
            && tally_of(rows@, out@[k].name@).periods >= 1 by {
            assert(out@[k].name@ == accs@[k].name@);
            assert(accs@[k].tally() == tally_of(rows@, accs@[k].name@));
        }
        assert forall|a: int, b: int| 0 <= a < b < out@.len() implies #[trigger] out@[a].name@
            != #[trigger] out@[b].name@ by {
            assert(out@[a].name@ == accs@[a].name@);
            assert(out@[b].name@ == accs@[b].name@);
        }
        assert forall|name: Seq<u8>|
            (forall|k: int| 0 <= k < out@.len() ==> #[trigger] out@[k].name@ != name) implies tally_of(rows@, name)
            == empty_tally() by {
            assert forall|k: int| 0 <= k < accs@.len() implies #[trigger] accs@[k].name@ != name by {
                assert(out@[k].name@ == accs@[k].name@);
            }
        }
    }
    Ok(out)
}

/// The change from normal to timely share, in percent and fixed point:
/// `(timely - normal) / normal * 100`, truncated toward zero; undefined
/// where the normal share is zero.
pub open spec fn diff_pct_spec(normal: int, timely: int) -> Option<int> {
    if normal == 0 {
        None
    } else {
        let num = (timely - normal) * 100 * crate::scoring::FIXED_ONE;
        Some(if num >= 0 { num / normal } else { -((-num) / normal) })
    }
}

/// The change from normal to timely share; `None` where the normal share
/// is zero.
pub fn diff_pct(normal: u64, timely: u64) -> (r: Option<i128>)
    ensures
        match r {
            Some(v) => diff_pct_spec(normal as int, timely as int) == Some(v as int),
            None => diff_pct_spec(normal as int, timely as int) is None,
        },
{
    if normal == 0 {
        return None;
    }
    let scale: i128 = 100 * (crate::scoring::FIXED_ONE as i128);
    let d: i128 = (timely as i128) - (normal as i128);
    proof {
        assert(-(u64::MAX as int) <= d <= u64::MAX);
        assert(-(u64::MAX as int) * 100000000000000 <= d * 100000000000000 <= (u64::MAX as int) * 100000000000000)
            by (nonlinear_arith)
            requires
                -(u64::MAX as int) <= d <= u64::MAX,
        ;
    }
    let num: i128 = d * scale;
    if num >= 0 {
        Some(num / (normal as i128))
    } else {
        Some(-((-num) / (normal as i128)))
    }
}

/// The normal shares of collated entries, in entry order.
pub open spec fn normal_keys(es: Seq<Collated>) -> Seq<u64> {
    es.map_values(|e: Collated| e.normal_pct)
}

/// The timely shares of collated entries, in entry order.
pub open spec fn timely_keys(es: Seq<Collated>) -> Seq<u64> {
    es.map_values(|e: Collated| e.timely_pct)
}

/// One row of the side-by-side table: the entity at this rank by normal
/// share, with its rank by timely share and its change between the two
/// shares, and the entity at this rank by timely share, with its rank by
/// normal share.
pub struct TableRow {
    pub left: usize,
    pub left_timely_rank: usize,
    pub left_diff: Option<i128>,
    pub right: usize,
    pub right_normal_rank: usize,
}

/// Ranks the entries by both shares and pairs the two orders rank by rank.
pub fn comparison_table(es: &Vec<Collated>) -> (r: (DualRanking, Vec<TableRow>))
    ensures
        r.0.ranks(normal_keys(es@), timely_keys(es@)),
        r.1@.len() == es@.len(),
        forall|i: int|
            0 <= i < es@.len() ==> {
                let row = #[trigger] r.1@[i];
                &&& row.left == r.0.normal_order@[i]
                &&& row.left_timely_rank == r.0.timely_rank@[row.left as int]
                &&& r.0.timely_order@[row.left_timely_rank as int] == row.left
                &&& row.right == r.0.timely_order@[i]
                &&& row.right_normal_rank == r.0.normal_rank@[row.right as int]
                &&& r.0.normal_order@[row.right_normal_rank as int] == row.right
                &&& match row.left_diff {
                    Some(v) => diff_pct_spec(es@[row.left as int].normal_pct as int, es@[row.left as int].timely_pct as int)
                        == Some(v as int),
                    None => diff_pct_spec(es@[row.left as int].normal_pct as int, es@[row.left as int].timely_pct as int) is None,
                }
            },
{
    let mut normal: Vec<u64> = Vec::new();
    let mut timely: Vec<u64> = Vec::new();
    let mut i: usize = 0;
    while i < es.len()
        invariant
            0 <= i <= es@.len(),
            normal@ == normal_keys(es@).take(i as int),
            timely@ == timely_keys(es@).take(i as int),
        decreases es@.len() - i,
    {
        normal.push(es[i].normal_pct);
        timely.push(es[i].timely_pct);
        i = i + 1;
        assert(normal@ =~= normal_keys(es@).take(i as int));
        assert(timely@ =~= timely_keys(es@).take(i as int));
    }
    assert(normal@ =~= normal_keys(es@));
    assert(timely@ =~= timely_keys(es@));
    let d = DualRanking::new(&normal, &timely);
    let n = es.len();
    let mut rows: Vec<TableRow> = Vec::new();
    let mut k: usize = 0;
    while k < n
        invariant
            n == es@.len(),
            0 <= k <= n,
            rows@.len() == k,
            d.ranks(normal_keys(es@), timely_keys(es@)),
            forall|i: int|
                0 <= i < k ==> {
                    let row = #[trigger] rows@[i];
                    &&& row.left == d.normal_order@[i]
                    &&& row.left_timely_rank == d.timely_rank@[row.left as int]
                    &&& d.timely_order@[row.left_timely_rank as int] == row.left
                    &&& row.right == d.timely_order@[i]
                    &&& row.right_normal_rank == d.normal_rank@[row.right as int]
                    &&& d.normal_order@[row.right_normal_rank as int] == row.right
                    &&& match row.left_diff {
                        Some(v) => diff_pct_spec(es@[row.left as int].normal_pct as int, es@[row.left as int].timely_pct as int)
                            == Some(v as int),
                        None => diff_pct_spec(es@[row.left as int].normal_pct as int, es@[row.left as int].timely_pct as int) is None,
                    }
                },
        decreases n - k,
    {
        let left = d.normal_order[k];
        let right = d.timely_order[k];
        let e = &es[left];
        let row = TableRow {
            left,
            left_timely_rank: d.timely_rank[left],
            left_diff: diff_pct(e.normal_pct, e.timely_pct),
            right,
            right_normal_rank: d.normal_rank[right],
        };
        rows.push(row);
        k = k + 1;
    }
    (d, rows)
}

} // verus!
