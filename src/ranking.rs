use vstd::prelude::*;

verus! {

/// `order` lists each of `0..n` exactly once.
pub open spec fn is_index_order(order: Seq<usize>, n: int) -> bool {
    &&& order.len() == n
    &&& forall|r: int| 0 <= r < n ==> #[trigger] order[r] < n
    &&& forall|a: int, b: int| 0 <= a < b < n ==> #[trigger] order[a] != #[trigger] order[b]
    &&& forall|e: int| 0 <= e < n ==> #[trigger] appears(order, e)
}

/// `e` stands somewhere in `order`.
pub open spec fn appears(order: Seq<usize>, e: int) -> bool {
    exists|r: int| 0 <= r < order.len() && #[trigger] order[r] == e
}

/// `order` visits the keys from the largest down.
pub open spec fn descending(order: Seq<usize>, keys: Seq<u64>) -> bool {
    forall|a: int, b: int| 0 <= a < b < order.len() ==> keys[#[trigger] order[a] as int] >= keys[#[trigger] order[b] as int]
}

/// Entities of equal key keep their input order.
pub open spec fn stable(order: Seq<usize>, keys: Seq<u64>) -> bool {
    forall|a: int, b: int|
        0 <= a < b < order.len() && keys[#[trigger] order[a] as int] == keys[#[trigger] order[b] as int] ==> order[a]
            < order[b]
}

/// The indices of `keys` from the largest key down; equal keys keep their
/// input order.
pub fn rank_descending(keys: &Vec<u64>) -> (order: Vec<usize>)
    ensures
        is_index_order(order@, keys@.len() as int),
        descending(order@, keys@),
        stable(order@, keys@),
{
    let n = keys.len();
    let mut order: Vec<usize> = Vec::new();
    let mut i: usize = 0;
    while i < n
        invariant
            n == keys@.len(),
            0 <= i <= n,
            is_index_order(order@, i as int),
            descending(order@, keys@),
            stable(order@, keys@),
        decreases n - i,
    {
        let ki = keys[i];
        let mut p: usize = 0;
        while p < order.len() && keys[order[p]] >= ki
            invariant
                0 <= p <= order@.len(),
                order@.len() == i,
                i < n,
                n == keys@.len(),
                is_index_order(order@, i as int),
                forall|r: int| 0 <= r < p ==> keys@[#[trigger] order@[r] as int] >= ki,
            decreases order@.len() - p,
        {
            p = p + 1;
        }
        let ghost old_order = order@;
        proof {
            assert forall|r: int| p <= r < old_order.len() implies keys@[#[trigger] old_order[r] as int] < ki by {
                assert(keys@[old_order[p as int] as int] < ki);
                if r > p {
                    assert(keys@[old_order[p as int] as int] >= keys@[old_order[r] as int]);
                }
            }
        }
        order.insert(p, i);
        proof {
            let s = order@;
            assert(s =~= old_order.insert(p as int, i));
            assert forall|r: int| 0 <= r < i + 1 implies #[trigger] s[r] < i + 1 by {
                if r < p {
                    assert(s[r] == old_order[r]);
                } else if r > p {
                    assert(s[r] == old_order[r - 1]);
                }
            }
            assert forall|a: int, b: int| 0 <= a < b < i + 1 implies #[trigger] s[a] != #[trigger] s[b] by {
                if a != p && b != p {
                    let a0 = if a < p { a } else { a - 1 };
                    let b0 = if b < p { b } else { b - 1 };
                    assert(s[a] == old_order[a0]);
                    assert(s[b] == old_order[b0]);
                } else if a == p {
                    assert(s[b] == old_order[b - 1]);
                } else {
                    assert(s[a] == old_order[a]);
                }
            }
            assert forall|e: int| 0 <= e < i + 1 implies #[trigger] appears(s, e) by {
                if e == i {
                    assert(s[p as int] == e);
                } else {
                    assert(appears(old_order, e));
                    let r0 = choose|r: int| 0 <= r < old_order.len() && #[trigger] old_order[r] == e;
                    if r0 < p {
                        assert(s[r0] == e);
                    } else {
                        assert(s[r0 + 1] == e);
                    }
                }
            }
            assert forall|a: int, b: int| 0 <= a < b < s.len() implies keys@[#[trigger] s[a] as int]
                >= keys@[#[trigger] s[b] as int] by {
                if a != p && b != p {
                    let a0 = if a < p { a } else { a - 1 };
                    let b0 = if b < p { b } else { b - 1 };
                    assert(s[a] == old_order[a0]);
                    assert(s[b] == old_order[b0]);
                } else if a == p {
                    assert(s[b] == old_order[b - 1]);
                } else {
                    assert(s[a] == old_order[a]);
                }
            }
        }
        proof {
            let s = order@;
            assert forall|a: int, b: int|
                0 <= a < b < s.len() && keys@[#[trigger] s[a] as int] == keys@[#[trigger] s[b] as int] implies s[a]
                < s[b] by {
                if a != p && b != p {
                    let a0 = if a < p { a } else { a - 1 };
                    let b0 = if b < p { b } else { b - 1 };
                    assert(s[a] == old_order[a0]);
                    assert(s[b] == old_order[b0]);
                } else if a == p {
                    assert(s[b] == old_order[b - 1]);
                } else {
                    assert(s[a] == old_order[a]);
                    assert(old_order[a] < i);
                }
            }
        }
        i = i + 1;
    }
    order
}

/// For each index, its position in `order`.
pub fn positions(order: &Vec<usize>) -> (pos: Vec<usize>)
    requires
        is_index_order(order@, order@.len() as int),
    ensures
        pos@.len() == order@.len(),
        forall|e: int| 0 <= e < pos@.len() ==> #[trigger] pos@[e] < pos@.len() && order@[pos@[e] as int] == e,
        forall|r: int| 0 <= r < order@.len() ==> #[trigger] pos@[order@[r] as int] == r,
{
    let n = order.len();
    let mut pos: Vec<usize> = vec![0usize; n];
    let mut r: usize = 0;
    while r < n
        invariant
            n == order@.len(),
            pos@.len() == n,
            0 <= r <= n,
            is_index_order(order@, n as int),
            forall|q: int| 0 <= q < r ==> #[trigger] pos@[order@[q] as int] == q,
        decreases n - r,
    {
        let ghost before = pos@;
        pos.set(order[r], r);
        proof {
            assert forall|q: int| 0 <= q < r + 1 implies #[trigger] pos@[order@[q] as int] == q by {
                if q < r {
                    assert(order@[q] != order@[r as int]);
                    assert(pos@[order@[q] as int] == before[order@[q] as int]);
                }
            }
        }
        r = r + 1;
    }
    proof {
        assert forall|e: int| 0 <= e < n implies #[trigger] pos@[e] < n && order@[pos@[e] as int] == e by {
            assert(appears(order@, e));
            let q = choose|q: int| 0 <= q < order@.len() && #[trigger] order@[q] == e;
            assert(pos@[order@[q] as int] == q);
        }
    }
    pos
}

/// Two rankings of the same entities and the position of each entity in
/// each of them.
pub struct DualRanking {
    pub normal_order: Vec<usize>,
    pub timely_order: Vec<usize>,
    pub normal_rank: Vec<usize>,
    pub timely_rank: Vec<usize>,
}

impl DualRanking {
    /// Both orders rank the same `n` entities, each rank table is the inverse
    /// of its order, and each order goes from the largest key down.
    pub open spec fn ranks(&self, normal: Seq<u64>, timely: Seq<u64>) -> bool {
        let n = normal.len() as int;
        &&& timely.len() == n
        &&& is_index_order(self.normal_order@, n)
        &&& is_index_order(self.timely_order@, n)
        &&& descending(self.normal_order@, normal)
        &&& descending(self.timely_order@, timely)
        &&& stable(self.normal_order@, normal)
        &&& stable(self.timely_order@, timely)
        &&& self.normal_rank@.len() == n
        &&& self.timely_rank@.len() == n
        &&& forall|e: int|
            0 <= e < n ==> #[trigger] self.normal_rank@[e] < n && self.normal_order@[self.normal_rank@[e] as int]
                == e
        &&& forall|e: int|
            0 <= e < n ==> #[trigger] self.timely_rank@[e] < n && self.timely_order@[self.timely_rank@[e] as int]
                == e
    }

    /// Ranks the entities by each key, largest first, with a position table
    /// for each order.
    pub fn new(normal: &Vec<u64>, timely: &Vec<u64>) -> (r: DualRanking)
        requires
            normal@.len() == timely@.len(),
        ensures
            r.ranks(normal@, timely@),
    {
        let normal_order = rank_descending(normal);
        let timely_order = rank_descending(timely);
        let normal_rank = positions(&normal_order);
        let timely_rank = positions(&timely_order);
        DualRanking { normal_order, timely_order, normal_rank, timely_rank }
    }
}

/// In a dual ranking, the cross-rank of every entity names the position at
/// which the other order holds that same entity.
pub proof fn lemma_cross_rank_consistent(d: DualRanking, normal: Seq<u64>, timely: Seq<u64>, e: int)
    requires
        d.ranks(normal, timely),
        0 <= e < normal.len(),
    ensures
        d.timely_order@[d.timely_rank@[e] as int] == e,
        d.normal_order@[d.normal_rank@[e] as int] == e,
        forall|r: int| 0 <= r < normal.len() && d.timely_order@[r] == e ==> r == d.timely_rank@[e],
        forall|r: int| 0 <= r < normal.len() && d.normal_order@[r] == e ==> r == d.normal_rank@[e],
{
    assert forall|r: int| 0 <= r < normal.len() && d.timely_order@[r] == e implies r == d.timely_rank@[e] by {
        let q = d.timely_rank@[e] as int;
        if r != q {
            if r < q {
                assert(d.timely_order@[r] != d.timely_order@[q]);
            } else {
                assert(d.timely_order@[q] != d.timely_order@[r]);
            }
        }
    }
    assert forall|r: int| 0 <= r < normal.len() && d.normal_order@[r] == e implies r == d.normal_rank@[e] by {
        let q = d.normal_rank@[e] as int;
        if r != q {
            if r < q {
                assert(d.normal_order@[r] != d.normal_order@[q]);
            } else {
                assert(d.normal_order@[q] != d.normal_order@[r]);
            }
        }
    }
}

/// `f` ranks ahead of `e`: a larger key, or an equal key and an earlier
/// index.
pub open spec fn ranks_ahead(keys: Seq<u64>, f: int, e: int) -> bool {
    keys[f] > keys[e] || (keys[f] == keys[e] && f < e)
}

proof fn lemma_prefix_agrees(o1: Seq<usize>, o2: Seq<usize>, keys: Seq<u64>, r: int)
    requires
        is_index_order(o1, keys.len() as int),
        is_index_order(o2, keys.len() as int),
        descending(o1, keys),
        descending(o2, keys),
        stable(o1, keys),
        stable(o2, keys),
        0 <= r <= keys.len(),
    ensures
        forall|q: int| 0 <= q < r ==> #[trigger] o1[q] == o2[q],
    decreases r,
{
    if r > 0 {
        let n = keys.len() as int;
        lemma_prefix_agrees(o1, o2, keys, r - 1);
        let m = r - 1;
        let x = o1[m] as int;
        let y = o2[m] as int;
        if x != y {
            assert(appears(o2, x));
            let s = choose|s: int| 0 <= s < o2.len() && #[trigger] o2[s] == x;
            assert(appears(o1, y));
            let t = choose|t: int| 0 <= t < o1.len() && #[trigger] o1[t] == y;
            if s < m {
                assert(o1[s] == o2[s]);
                assert(o1[s] != o1[m]);
            }
            if t < m {
                assert(o1[t] == o2[t]);
                assert(o2[t] != o2[m]);
            }
            assert(s > m && t > m);
            assert(keys[o2[m] as int] >= keys[o2[s] as int]);
            assert(keys[o1[m] as int] >= keys[o1[t] as int]);
            assert(ranks_ahead(keys, y, x));
            assert(ranks_ahead(keys, x, y));
        }
    }
}

/// There is one stable descending order of a set of keys: a ranking equals
/// any other stable sort of the same keys from the largest down.
pub proof fn lemma_ranking_unique(o1: Seq<usize>, o2: Seq<usize>, keys: Seq<u64>)
    requires
        is_index_order(o1, keys.len() as int),
        is_index_order(o2, keys.len() as int),
        descending(o1, keys),
        descending(o2, keys),
        stable(o1, keys),
        stable(o2, keys),
    ensures
        o1 == o2,
{
    lemma_prefix_agrees(o1, o2, keys, keys.len() as int);
    assert(o1 =~= o2);
}

} // verus!
