use vstd::prelude::*;

verus! {

/// The elements of `s` at the positions where `keep` holds, in their order in `s`.
pub open spec fn select<A>(s: Seq<A>, keep: Seq<bool>) -> Seq<A>
    decreases s.len(),
{
    if s.len() == 0 {
        seq![]
    } else {
        let prev = select(s.drop_last(), keep);
        if keep[s.len() - 1] {
            prev.push(s.last())
        } else {
            prev
        }
    }
}

/// The sequence of references to the elements of `s`.
pub open spec fn refs<'a, D>(s: Seq<D>) -> Seq<&'a D> {
    Seq::new(s.len(), |i: int| &s[i])
}

/// The complement of a selection mask.
pub open spec fn negate(keep: Seq<bool>) -> Seq<bool> {
    Seq::new(keep.len(), |i: int| !keep[i])
}

/// `picks` is one outcome of the predicate on every indexed element of `data`.
pub open spec fn predicate_outcomes<D, F: Fn(&(usize, &D)) -> bool>(
    filter: F,
    data: Seq<D>,
    picks: Seq<bool>,
) -> bool {
    &&& picks.len() == data.len()
    &&& forall|i: int|
        0 <= i < data.len() ==> filter.ensures((&(i as usize, &data[i]),), #[trigger] picks[i])
}

/// Splits `data` into the elements on which `filter` holds and those on which it does not,
/// each in input order. The predicate sees each element with its position, once.
pub fn partition<'a, D, F>(data: &'a [D], filter_func: F) -> (r: (Vec<&'a D>, Vec<&'a D>))
    where
        F: Fn(&(usize, &D)) -> bool,
    requires
        forall|i: int| 0 <= i < data@.len() ==> filter_func.requires((&(i as usize, &data@[i]),)),
    ensures
        exists|picks: Seq<bool>|
            {
                &&& predicate_outcomes(filter_func, data@, picks)
                &&& r.0@ == select(refs(data@), picks)
                &&& r.1@ == select(refs(data@), negate(picks))
            },
{
    let mut success: Vec<&'a D> = Vec::new();
    let mut fail: Vec<&'a D> = Vec::new();
    let ghost mut picks: Seq<bool> = seq![];
    let mut i: usize = 0;
    while i < data.len()
        invariant
            i <= data@.len(),
            picks.len() == i,
            forall|j: int| 0 <= j < data@.len() ==> filter_func.requires((&(j as usize, &data@[j]),)),
            forall|j: int| 0 <= j < i ==> filter_func.ensures((&(j as usize, &data@[j]),), #[trigger] picks[j]),
            success@ == select(refs(data@).take(i as int), picks),
            fail@ == select(refs(data@).take(i as int), negate(picks)),
        decreases data@.len() - i,
    {
        let item: &'a D = &data[i];
        let arg = (i, item);
        let hold = filter_func(&arg);
        proof {
            lemma_select_extend(refs(data@).take(i as int), picks, hold);
            assert(refs(data@).take(i as int + 1).drop_last() =~= refs(data@).take(i as int));
        }
        if hold {
            success.push(item);
        } else {
            fail.push(item);
        }
        proof {
            picks = picks.push(hold);
        }
        i = i + 1;
    }
    proof {
        assert(refs(data@).take(data@.len() as int) =~= refs(data@));
        assert(predicate_outcomes(filter_func, data@, picks));
    }
    (success, fail)
}

/// `keys` is one outcome of `key` on every element of `data`.
pub open spec fn key_outcomes<D, K: Fn(&D) -> usize>(key: K, data: Seq<D>, keys: Seq<usize>) -> bool {
    &&& keys.len() == data.len()
    &&& forall|i: int| 0 <= i < data.len() ==> key.ensures((&data[i],), #[trigger] keys[i])
}

/// Position `a` comes before position `b` when its key is smaller, or the keys are equal and
/// `a` stood first.
pub open spec fn key_before(keys: Seq<usize>, a: usize, b: usize) -> bool {
    keys[a as int] < keys[b as int] || (keys[a as int] == keys[b as int] && a < b)
}

/// `order` lists every position of `keys` once, ascending by key, and positions with equal keys
/// in their input order.
pub open spec fn is_stable_order(keys: Seq<usize>, order: Seq<usize>) -> bool {
    &&& order.len() == keys.len()
    &&& forall|j: int| 0 <= j < order.len() ==> #[trigger] order[j] < keys.len()
    &&& forall|p: usize| p < keys.len() ==> order.contains(p)
    &&& forall|j: int, k: int|
        0 <= j < k < order.len() ==> key_before(keys, #[trigger] order[j], #[trigger] order[k])
}

/// The elements of `data` in the order given by the positions of `order`.
pub open spec fn arrange<'a, D>(data: Seq<D>, order: Seq<usize>) -> Seq<&'a D> {
    Seq::new(order.len(), |j: int| &data[order[j] as int])
}

/// The positions of `keys`, sorted ascending by key; equal keys keep their relative order.
pub fn stable_order(keys: &Vec<usize>) -> (order: Vec<usize>)
    ensures
        is_stable_order(keys@, order@),
{
    let n = keys.len();
    let mut order: Vec<usize> = Vec::new();
    let mut i: usize = 0;
    while i < n
        invariant
            n == keys@.len(),
            i <= n,
            order@.len() == i,
            forall|j: int| 0 <= j < order@.len() ==> #[trigger] order@[j] < i,
            forall|p: usize| p < i ==> order@.contains(p),
            forall|j: int, k: int|
                0 <= j < k < order@.len() ==> key_before(keys@, #[trigger] order@[j], #[trigger] order@[k]),
        decreases n - i,
    {
        let ki = keys[i];
        let mut pos: usize = 0;
        while pos < order.len() && keys[order[pos]] <= ki
            invariant
                n == keys@.len(),
                i < n,
                pos <= order@.len(),
                ki == keys@[i as int],
                forall|j: int| 0 <= j < order@.len() ==> #[trigger] order@[j] < i,
                forall|j: int| 0 <= j < pos ==> keys@[#[trigger] order@[j] as int] <= ki,
            decreases order@.len() - pos,
        {
            pos = pos + 1;
        }
        let ghost prev = order@;
        proof {
            assert forall|k: int| pos <= k < prev.len() implies ki < keys@[#[trigger] prev[k] as int] by {
                if pos < k {
                    assert(key_before(keys@, prev[pos as int], prev[k]));
                }
            }
        }
        order.insert(pos, i);
        proof {
            let cur = order@;
            assert(cur == prev.insert(pos as int, i));
            assert forall|j: int| 0 <= j < cur.len() implies #[trigger] cur[j] < i + 1 by {
                if j < pos {
                    assert(cur[j] == prev[j]);
                } else if j > pos {
                    assert(cur[j] == prev[j - 1]);
                }
            }
            assert forall|p: usize| p < i + 1 implies cur.contains(p) by {
                if p == i {
                    assert(cur[pos as int] == i);
                } else {
                    assert(prev.contains(p));
                    let j = choose|j: int| 0 <= j < prev.len() && prev[j] == p;
                    if j < pos {
                        assert(cur[j] == p);
                    } else {
                        assert(cur[j + 1] == p);
                    }
                }
            }
            assert forall|j: int, k: int| 0 <= j < k < cur.len() implies key_before(
                keys@,
                #[trigger] cur[j],
                #[trigger] cur[k],
            ) by {
                if k < pos {
                    assert(key_before(keys@, prev[j], prev[k]));
                } else if k == pos {
                    assert(cur[j] == prev[j]);
                    assert(prev[j] < i);
                } else if j < pos {
                    assert(key_before(keys@, prev[j], prev[k - 1]));
                    assert(keys@[prev[j] as int] <= ki);
                    assert(ki < keys@[prev[k - 1] as int]);
                } else if j == pos {
                    assert(ki < keys@[prev[k - 1] as int]);
                } else {
                    assert(key_before(keys@, prev[j - 1], prev[k - 1]));
                }
            }
        }
        i = i + 1;
    }
    order
}

/// Returns references to the elements of `data` sorted ascending by `key`, without changing
/// `data`; elements with equal keys keep their relative order. The key of each element is
/// computed once.
pub fn sort<'a, D, K>(data: &'a [D], key: K) -> (r: Vec<&'a D>)
    where
        K: Fn(&D) -> usize,
    requires
        forall|i: int| 0 <= i < data@.len() ==> key.requires((&data@[i],)),
    ensures
        exists|keys: Seq<usize>, order: Seq<usize>|
            {
                &&& key_outcomes(key, data@, keys)
                &&& is_stable_order(keys, order)
                &&& r@ == arrange(data@, order)
            },
{
    let mut keys: Vec<usize> = Vec::new();
    let mut i: usize = 0;
    while i < data.len()
        invariant
            i <= data@.len(),
            keys@.len() == i,
            forall|j: int| 0 <= j < data@.len() ==> key.requires((&data@[j],)),
            forall|j: int| 0 <= j < i ==> key.ensures((&data@[j],), #[trigger] keys@[j]),
        decreases data@.len() - i,
    {
        let k = key(&data[i]);
        keys.push(k);
        i = i + 1;
    }
    let order = stable_order(&keys);
    let mut sorted_data: Vec<&'a D> = Vec::new();
    let mut j: usize = 0;
    while j < order.len()
        invariant
            j <= order@.len(),
            is_stable_order(keys@, order@),
            keys@.len() == data@.len(),
            sorted_data@ == arrange(data@, order@.take(j as int)),
        decreases order@.len() - j,
    {
        let p = order[j];
        sorted_data.push(&data[p]);
        j = j + 1;
        proof {
            assert(sorted_data@ =~= arrange(data@, order@.take(j as int)));
        }
    }
    proof {
        assert(order@.take(order@.len() as int) =~= order@);
        assert(key_outcomes(key, data@, keys@));
    }
    sorted_data
}

/// Why a statistic could not be taken.
#[derive(Debug, Clone, Copy, PartialEq, Eq, Structural)]
pub enum StatsError {
    /// The proportion is not a fraction between 0 and 1 with a non-zero denominator.
    InvalidFraction,
    /// The rank falls past the last element (always so on empty data).
    IndexOutOfRange,
}

/// The rank picked by the proportion `num / den` in `len` elements: `floor(len * num / den)`.
pub open spec fn percentile_index(len: nat, num: nat, den: nat) -> int {
    ((len * num) / den) as int
}

/// The element at rank `floor(len * k_num / k_den)` of data sorted ascending by the caller.
/// The proportion must lie in `[0, 1]`; a rank equal to the length (the proportion 1, or any
/// proportion on empty data) is reported as out of range, never clamped.
pub fn percentile<'a, D>(k_num: u32, k_den: u32, sorted_data: &'a [D]) -> (r: Result<&'a D, StatsError>)
    ensures
        k_den == 0 || k_num > k_den ==> r == Err::<&'a D, StatsError>(StatsError::InvalidFraction),
        k_den > 0 && k_num <= k_den ==> {
            let idx = percentile_index(sorted_data@.len(), k_num as nat, k_den as nat);
            match r {
                Ok(x) => idx < sorted_data@.len() && *x == sorted_data@[idx],
                Err(e) => idx >= sorted_data@.len() && e == StatsError::IndexOutOfRange,
            }
        },
{
    if k_den == 0 || k_num > k_den {
        return Err(StatsError::InvalidFraction);
    }
    let len = sorted_data.len() as u128;
    proof {
        assert(len * (k_num as u128) <= 0x1_0000_0000_0000_0000 * 0x1_0000_0000) by (nonlinear_arith)
            requires
                len <= 0x1_0000_0000_0000_0000,
                k_num <= 0x1_0000_0000,
        ;
    }
    let index = (len * (k_num as u128)) / (k_den as u128);
    if index >= len {
        Err(StatsError::IndexOutOfRange)
    } else {
        Ok(&sorted_data[index as usize])
    }
}

/// Whether `x` lies within the interquartile fences of `keys`: with `Q1` the key at rank
/// `floor(n / 4)`, `Q3` the key at rank `floor(3n / 4)` and `IQR = Q3 - Q1`, the fences are
/// `[Q1 - 1.5 IQR, Q3 + 1.5 IQR]` (here doubled, to stay in integers).
pub open spec fn within_fences(keys: Seq<i64>, x: int) -> bool {
    let q1 = keys[percentile_index(keys.len(), 1, 4)] as int;
    let q3 = keys[percentile_index(keys.len(), 3, 4)] as int;
    let iqr = q3 - q1;
    2 * q1 - 3 * iqr <= 2 * x && 2 * x <= 2 * q3 + 3 * iqr
}

/// For each key, whether it lies within the fences.
pub open spec fn fence_mask(keys: Seq<i64>) -> Seq<bool> {
    Seq::new(keys.len(), |i: int| within_fences(keys, keys[i] as int))
}

/// `keys` is one outcome of `key` on every element of `data`.
pub open spec fn value_outcomes<D, K: Fn(&D) -> i64>(key: K, data: Seq<D>, keys: Seq<i64>) -> bool {
    &&& keys.len() == data.len()
    &&& forall|i: int| 0 <= i < data.len() ==> key.ensures((&data[i],), #[trigger] keys[i])
}

/// The elements of `sorted_data` (sorted ascending by `key` by the caller) whose key lies within
/// the interquartile fences, in their order. Both fences must hold for an element to stay. Empty
/// data has no quartiles and is reported.
pub fn partition_outlier<'a, D, K>(sorted_data: &'a [D], key: K) -> (r: Result<Vec<&'a D>, StatsError>)
    where
        K: Fn(&D) -> i64,
    requires
        forall|i: int| 0 <= i < sorted_data@.len() ==> key.requires((&sorted_data@[i],)),
    ensures
        sorted_data@.len() == 0 <==> r is Err,
        r is Err ==> r == Err::<Vec<&'a D>, StatsError>(StatsError::IndexOutOfRange),
        r is Ok ==> exists|keys: Seq<i64>|
            {
                &&& value_outcomes(key, sorted_data@, keys)
                &&& r->Ok_0@ == select(refs(sorted_data@), fence_mask(keys))
            },
{
    let mut keys: Vec<i64> = Vec::new();
    let mut i: usize = 0;
    while i < sorted_data.len()
        invariant
            i <= sorted_data@.len(),
            keys@.len() == i,
            forall|j: int| 0 <= j < sorted_data@.len() ==> key.requires((&sorted_data@[j],)),
            forall|j: int| 0 <= j < i ==> key.ensures((&sorted_data@[j],), #[trigger] keys@[j]),
        decreases sorted_data@.len() - i,
    {
        let k = key(&sorted_data[i]);
        keys.push(k);
        i = i + 1;
    }
    let q1: i64 = match percentile(1, 4, keys.as_slice()) {
        Ok(v) => *v,
        Err(e) => {
            return Err(e);
        },
    };
    let q3: i64 = match percentile(3, 4, keys.as_slice()) {
        Ok(v) => *v,
        Err(e) => {
            return Err(e);
        },
    };
    let iqr: i128 = q3 as i128 - q1 as i128;
    let lower: i128 = 2 * (q1 as i128) - 3 * iqr;
    let upper: i128 = 2 * (q3 as i128) + 3 * iqr;
    proof {
        assert(within_fences(keys@, 0) == (lower <= 0 && 0 <= upper));
    }
    let mut kept: Vec<&'a D> = Vec::new();
    let mut j: usize = 0;
    while j < sorted_data.len()
        invariant
            j <= sorted_data@.len(),
            keys@.len() == sorted_data@.len(),
            keys@.len() > 0,
            forall|x: int| #[trigger] within_fences(keys@, x) == (lower <= 2 * x && 2 * x <= upper),
            kept@ == select(refs(sorted_data@).take(j as int), fence_mask(keys@)),
        decreases sorted_data@.len() - j,
    {
        let kj: i128 = keys[j] as i128;
        proof {
            assert(refs(sorted_data@).take(j as int + 1).drop_last() =~= refs(sorted_data@).take(j as int));
            assert(fence_mask(keys@)[j as int] == within_fences(keys@, keys@[j as int] as int));
        }
        if lower <= 2 * kj && 2 * kj <= upper {
            kept.push(&sorted_data[j]);
        }
        j = j + 1;
    }
    proof {
        assert(refs(sorted_data@).take(sorted_data@.len() as int) =~= refs(sorted_data@));
        assert(value_outcomes(key, sorted_data@, keys@));
    }
    Ok(kept)
}

/// Partitioning loses nothing: whatever the predicate decided, the two parts together are as
/// long as the input and hold the same elements, counted with multiplicity.
pub proof fn lemma_partition_lossless<A>(data: Seq<A>, picks: Seq<bool>)
    requires
        picks.len() == data.len(),
    ensures
        select(data, picks).len() + select(data, negate(picks)).len() == data.len(),
        select(data, picks).to_multiset().add(select(data, negate(picks)).to_multiset())
            =~= data.to_multiset(),
    decreases data.len(),
{
    broadcast use vstd::seq_lib::group_to_multiset_ensures;

    if data.len() == 0 {
        assert(data =~= Seq::<A>::empty());
        assert(select(data, picks) =~= Seq::<A>::empty());
        assert(select(data, negate(picks)) =~= Seq::<A>::empty());
    } else {
        let prev = data.drop_last();
        let kept = picks.drop_last();
        lemma_partition_lossless(prev, kept);
        lemma_select_agree(prev, kept, picks);
        lemma_select_agree(prev, negate(kept), negate(picks));
        assert(data =~= prev.push(data.last()));
    }
}

/// Sorting by key is a stable permutation: the order lists every position exactly once, keys
/// ascend along it, and positions with equal keys keep their relative order.
pub proof fn lemma_sort_stable_permutation(keys: Seq<usize>, order: Seq<usize>)
    requires
        is_stable_order(keys, order),
    ensures
        order.len() == keys.len(),
        order.no_duplicates(),
        forall|p: usize| p < keys.len() ==> order.contains(p),
        forall|j: int, k: int|
            0 <= j < k < order.len() ==> keys[order[j] as int] <= keys[order[k] as int],
        forall|j: int, k: int|
            0 <= j < k < order.len() && keys[order[j] as int] == keys[order[k] as int] ==> order[j]
                < order[k],
{
    assert forall|j: int, k: int| 0 <= j < order.len() && 0 <= k < order.len() && j != k implies order[j]
        != order[k] by {
        if j < k {
            assert(key_before(keys, order[j], order[k]));
        } else {
            assert(key_before(keys, order[k], order[j]));
        }
    }
}

/// The proportion 0 picks the first element of non-empty data, and the proportion 1 always
/// falls one past the last element, which `percentile` reports as out of range.
pub proof fn lemma_percentile_ends(len: nat)
    ensures
        percentile_index(len, 0, 1) == 0,
        percentile_index(len, 1, 1) == len,
{
}

/// A selection depends on the mask only at the positions of `s`.
proof fn lemma_select_agree<A>(s: Seq<A>, k1: Seq<bool>, k2: Seq<bool>)
    requires
        forall|i: int| 0 <= i < s.len() ==> k1[i] == k2[i],
    ensures
        select(s, k1) == select(s, k2),
    decreases s.len(),
{
    if s.len() > 0 {
        lemma_select_agree(s.drop_last(), k1, k2);
    }
}

proof fn lemma_select_extend<A>(s: Seq<A>, keep: Seq<bool>, b: bool)
    requires
        keep.len() >= s.len(),
    ensures
        select(s, keep) == select(s, keep.push(b)),
        select(s, negate(keep)) == select(s, negate(keep.push(b))),
{
    lemma_select_agree(s, keep, keep.push(b));
    lemma_select_agree(s, negate(keep), negate(keep.push(b)));
}

} // verus!
