use vstd::prelude::*;
use crate::collate::PeriodRow;
use crate::scoring::HistogramRow;
use crate::text::{
    copy_bytes, fixed_token, parse_fixed, parse_u64, pieces, place_first, place_first_name, split_on, u64_token, SPACE,
};

verus! {

/// Tokens of one histogram line: data center, vote account, transactions,
/// credits and one count per latency bucket.
pub const HISTOGRAM_TOKENS: usize = 68;

/// Tokens of one scored line: name, validators, transactions, credits,
/// timely credits, average latency, normal share, timely share.
pub const SCORED_TOKENS: usize = 8;

fn read_u64(t: &Vec<u8>) -> (r: Option<u64>)
    ensures
        match r {
            Some(v) => u64_token(t@) == Some(v as int),
            None => u64_token(t@) is None,
        },
{
    parse_u64(t)
}

/// Reads the tokens `p[from..]` as counts.
fn read_counts(p: &Vec<Vec<u8>>, from: usize) -> (r: Option<Vec<u64>>)
    requires
        from <= p@.len(),
    ensures
        r.is_some() <==> forall|k: int| from <= k < p@.len() ==> u64_token(#[trigger] p@[k]@) is Some,
        r matches Some(vs) ==> vs@.len() == p@.len() - from && forall|k: int|
            0 <= k < vs@.len() ==> u64_token(p@[k + from]@) == Some(#[trigger] vs@[k] as int),
{
    let mut vs: Vec<u64> = Vec::new();
    let mut i: usize = from;
    while i < p.len()
        invariant
            from <= i <= p@.len(),
            vs@.len() == i - from,
            forall|k: int| from <= k < i ==> u64_token(#[trigger] p@[k]@) is Some,
            forall|k: int| 0 <= k < vs@.len() ==> u64_token(p@[k + from]@) == Some(#[trigger] vs@[k] as int),
        decreases p@.len() - i,
    {
        match read_u64(&p[i]) {
            Some(v) => vs.push(v),
            None => return None,
        }
        i = i + 1;
    }
    Some(vs)
}

/// One vote observation: the slot it landed in, the vote account and the
/// slots it voted on.
pub struct Observation {
    pub slot: u64,
    pub vote_account: Vec<u8>,
    pub voted: Vec<u64>,
}

/// Reads `slot vote_account voted...`, or `None` where the line has fewer
/// than two tokens or a number does not read.
pub fn parse_observation(line: &Vec<u8>) -> (r: Option<Observation>)
    ensures
        ({
            let p = pieces(line@, SPACE);
            &&& r.is_some() <==> (p.len() >= 2 && u64_token(p[0]) is Some && forall|k: int|
                2 <= k < p.len() ==> u64_token(#[trigger] p[k]) is Some)
            &&& r matches Some(o) ==> {
                &&& u64_token(p[0]) == Some(o.slot as int)
                &&& o.vote_account@ == p[1]
                &&& o.voted@.len() == p.len() - 2
                &&& forall|k: int| 0 <= k < o.voted@.len() ==> u64_token(p[k + 2]) == Some(#[trigger] o.voted@[k] as int)
            }
        }),
{
    let p = split_on(line, SPACE);
    if p.len() < 2 {
        return None;
    }
    let slot = match read_u64(&p[0]) {
        Some(s) => s,
        None => return None,
    };
    let voted = match read_counts(&p, 2) {
        Some(v) => v,
        None => {
            proof {
                let ps = pieces(line@, SPACE);
                assert forall|k: int| 2 <= k < ps.len() implies #[trigger] p@[k]@ == ps[k] by {}
            }
            return None;
        },
    };
    proof {
        let ps = pieces(line@, SPACE);
        assert forall|k: int| 2 <= k < ps.len() implies u64_token(#[trigger] ps[k]) is Some by {
            assert(p@[k]@ == ps[k]);
        }
        assert forall|k: int| 0 <= k < voted@.len() implies u64_token(ps[k + 2]) == Some(#[trigger] voted@[k] as int) by {
            assert(p@[k + 2]@ == ps[k + 2]);
        }
    }
    Some(Observation { slot, vote_account: copy_bytes(&p[1]), voted })
}

/// Reads one histogram line of exactly the expected number of tokens.
pub fn parse_histogram_row(line: &Vec<u8>) -> (r: Option<HistogramRow>)
    ensures
        ({
            let p = pieces(line@, SPACE);
            &&& r.is_some() <==> (p.len() == HISTOGRAM_TOKENS && forall|k: int|
                2 <= k < p.len() ==> u64_token(#[trigger] p[k]) is Some)
            &&& r matches Some(h) ==> {
                &&& h.data_center@ == p[0]
                &&& h.pubkey@ == p[1]
                &&& u64_token(p[2]) == Some(h.total_transactions as int)
                &&& u64_token(p[3]) == Some(h.total_credits as int)
                &&& h.buckets@.len() == HISTOGRAM_TOKENS - 4
                &&& forall|k: int| 0 <= k < h.buckets@.len() ==> u64_token(p[k + 4]) == Some(#[trigger] h.buckets@[k] as int)
            }
        }),
{
    let p = split_on(line, SPACE);
    if p.len() != HISTOGRAM_TOKENS {
        return None;
    }
    let counts = match read_counts(&p, 2) {
        Some(c) => c,
        None => {
            proof {
                let ps = pieces(line@, SPACE);
                assert forall|k: int| 2 <= k < ps.len() implies #[trigger] p@[k]@ == ps[k] by {}
            }
            return None;
        },
    };
    let mut buckets: Vec<u64> = Vec::new();
    let mut i: usize = 2;
    while i < counts.len()
        invariant
            2 <= i <= counts@.len(),
            buckets@ == counts@.subrange(2, i as int),
        decreases counts@.len() - i,
    {
        buckets.push(counts[i]);
        i = i + 1;
        assert(buckets@ =~= counts@.subrange(2, i as int));
    }
    proof {
        let ps = pieces(line@, SPACE);
        assert forall|k: int| 2 <= k < ps.len() implies u64_token(#[trigger] ps[k]) is Some by {
            assert(p@[k]@ == ps[k]);
        }
        assert(p@[2]@ == ps[2]);
        assert(p@[3]@ == ps[3]);
        assert forall|k: int| 0 <= k < buckets@.len() implies u64_token(ps[k + 4]) == Some(#[trigger] buckets@[k] as int) by {
            assert(p@[k + 4]@ == ps[k + 4]);
            assert(buckets@[k] == counts@[k + 2]);
            assert(u64_token(p@[(k + 2) + 2]@) == Some(counts@[k + 2] as int));
        }
        assert(u64_token(p@[2]@) == Some(counts@[0] as int));
        assert(u64_token(p@[3]@) == Some(counts@[1] as int));
        assert forall|k: int| 0 <= k < buckets@.len() implies u64_token(p@[k + 4]@) == Some(#[trigger] buckets@[k] as int) by {
            assert(buckets@[k] == counts@[k + 2]);
            assert(u64_token(p@[(k + 2) + 2]@) == Some(counts@[k + 2] as int));
        }
    }
    Some(
        HistogramRow {
            data_center: copy_bytes(&p[0]),
            pubkey: copy_bytes(&p[1]),
            total_transactions: counts[0],
            total_credits: counts[1],
            buckets,
        },
    )
}

/// The text of an undefined figure.
pub open spec fn is_nan(t: Seq<u8>) -> bool {
    t == seq![0x4eu8, 0x61u8, 0x4eu8]
}

/// An average-latency token: `NaN` for an undefined value, else a decimal.
pub open spec fn latency_token(t: Seq<u8>) -> Option<Option<int>> {
    if is_nan(t) {
        Some(None)
    } else {
        match fixed_token(t) {
            Some(v) => Some(Some(v)),
            None => None,
        }
    }
}

fn read_latency(t: &Vec<u8>) -> (r: Option<Option<u64>>)
    ensures
        match r {
            Some(Some(v)) => latency_token(t@) == Some(Some(v as int)),
            Some(None) => latency_token(t@) == Some(None::<int>),
            None => latency_token(t@) is None,
        },
{
    if t.len() == 3 && t[0] == 0x4e && t[1] == 0x61 && t[2] == 0x4e {
        assert(t@ =~= seq![0x4eu8, 0x61u8, 0x4eu8]);
        return Some(None);
    }
    match parse_fixed(t) {
        Some(v) => Some(Some(v)),
        None => None,
    }
}

/// The name under which a scored line is collated: data-center ids put their
/// place first, validator names are kept.
pub open spec fn collated_name(t: Seq<u8>, by_data_center: bool) -> Seq<u8> {
    if by_data_center {
        place_first(t)
    } else {
        t
    }
}

/// Reads one scored line of exactly the expected number of tokens. The
/// transactions token is not read. Shares must be finite decimals.
pub fn parse_period_row(line: &Vec<u8>, by_data_center: bool) -> (r: Option<PeriodRow>)
    ensures
        ({
            let p = pieces(line@, SPACE);
            &&& r.is_some() <==> (p.len() == SCORED_TOKENS && u64_token(p[1]) is Some && u64_token(p[3]) is Some
                && u64_token(p[4]) is Some && latency_token(p[5]) is Some && fixed_token(p[6]) is Some
                && fixed_token(p[7]) is Some)
            &&& r matches Some(row) ==> {
                &&& row.name@ == collated_name(p[0], by_data_center)
                &&& u64_token(p[1]) == Some(row.total_validators as int)
                &&& u64_token(p[3]) == Some(row.total_normal_credits as int)
                &&& u64_token(p[4]) == Some(row.total_timely_credits as int)
                &&& latency_token(p[5]) == Some(
                    match row.avg_latency {
                        Some(v) => Some(v as int),
                        None => None,
                    },
                )
                &&& fixed_token(p[6]) == Some(row.normal_pct as int)
                &&& fixed_token(p[7]) == Some(row.timely_pct as int)
            }
        }),
{
    let p = split_on(line, SPACE);
    if p.len() != SCORED_TOKENS {
        return None;
    }
    let validators = match read_u64(&p[1]) {
        Some(v) => v,
        None => return None,
    };
    let normal_credits = match read_u64(&p[3]) {
        Some(v) => v,
        None => return None,
    };
    let timely_credits = match read_u64(&p[4]) {
        Some(v) => v,
        None => return None,
    };
    let latency = match read_latency(&p[5]) {
        Some(v) => v,
        None => return None,
    };
    let normal_pct = match parse_fixed(&p[6]) {
        Some(v) => v,
        None => return None,
    };
    let timely_pct = match parse_fixed(&p[7]) {
        Some(v) => v,
        None => return None,
    };
    let name = if by_data_center {
        place_first_name(&p[0])
    } else {
        copy_bytes(&p[0])
    };
    Some(
        PeriodRow {
            name,
            total_validators: validators,
            total_normal_credits: normal_credits,
            total_timely_credits: timely_credits,
            avg_latency: latency,
            normal_pct,
            timely_pct,
        },
    )
}

} // verus!
