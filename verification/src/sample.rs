//! Weighted sampling without replacement, Efraimidis–Spirakis style.
//!
//! Candidate `i` receives the key `e_i / w_i`, where `w_i` is its positive
//! rational weight and `e_i` a unit-exponential variate that the caller
//! supplies as a fixed-point integer (the random-number generator is an
//! injected collaborator, which keeps the sampler deterministic given its
//! input). The `count` smallest keys win, in ascending key order, ties
//! broken towards the smaller index. With exponential draws the inclusion
//! probability is proportional to the weight.

use vstd::prelude::*;
use vstd::arithmetic::mul::{lemma_mul_upper_bound, lemma_mul_inequality};
use vstd::arithmetic::div_mod::lemma_div_is_ordered;

verus! {

/// A positive rational weight `num / den`.
#[derive(Clone, Copy, Debug, PartialEq, Eq, Structural)]
pub struct Weight {
    pub num: u64,
    pub den: u64,
}

impl Weight {
    pub open spec fn wf(self) -> bool {
        self.num >= 1 && self.den >= 1
    }
}

/// The sampling key of candidate `j`: its exponential draw divided by its
/// weight, in fixed point — `e * den / num` with integer division.
pub open spec fn es_key(draws: Seq<u64>, ws: Seq<Weight>, j: int) -> int {
    (draws[j] * ws[j].den) / (ws[j].num as int)
}

/// Strict lexicographic order on (key, index).
pub open spec fn key_lt(k1: int, j1: int, k2: int, j2: int) -> bool {
    k1 < k2 || (k1 == k2 && j1 < j2)
}

/// Whether index `j` occurs in the selection `r`.
pub open spec fn in_result(r: Seq<usize>, j: int) -> bool {
    exists|a: int| 0 <= a < r.len() && r[a] as int == j
}

/// The full characterization of a selection `r` from `n = |ws|`
/// candidates: `min(count, n)` distinct indices, ascending by (key,
/// index), and every selected pair below every unselected one.
pub open spec fn is_es_selection(
    draws: Seq<u64>,
    ws: Seq<Weight>,
    count: int,
    r: Seq<usize>,
) -> bool {
    let n = ws.len() as int;
    &&& r.len() == (if count <= n {
        count
    } else {
        n
    })
    &&& (forall|a: int| 0 <= a < r.len() ==> #[trigger] r[a] < n)
    &&& (forall|a: int, b: int|
        0 <= a < b < r.len() ==> key_lt(
            es_key(draws, ws, #[trigger] r[a] as int),
            r[a] as int,
            es_key(draws, ws, #[trigger] r[b] as int),
            r[b] as int,
        ))
    &&& (forall|a: int, j: int|
        #![trigger r[a], in_result(r, j)]
        0 <= a < r.len() && 0 <= j < n && !in_result(r, j) ==> key_lt(
            es_key(draws, ws, r[a] as int),
            r[a] as int,
            es_key(draws, ws, j),
            j,
        ))
}

/// A selection never repeats an index: the (key, index) order along it is
/// strict.
pub proof fn lemma_es_selection_distinct(
    draws: Seq<u64>,
    ws: Seq<Weight>,
    count: int,
    r: Seq<usize>,
)
    requires
        is_es_selection(draws, ws, count, r),
    ensures
        forall|a: int, b: int| 0 <= a < b < r.len() ==> r[a] != r[b],
{
    assert forall|a: int, b: int| 0 <= a < b < r.len() implies r[a] != r[b] by {
        assert(key_lt(
            es_key(draws, ws, r[a] as int),
            r[a] as int,
            es_key(draws, ws, r[b] as int),
            r[b] as int,
        ));
    }
}

/// The number of `true` entries.
pub open spec fn count_true(s: Seq<bool>) -> int
    decreases s.len(),
{
    if s.len() == 0 {
        0
    } else {
        count_true(s.drop_last()) + if s.last() {
            1int
        } else {
            0int
        }
    }
}

proof fn lemma_count_true_bounds(s: Seq<bool>)
    ensures
        0 <= count_true(s) <= s.len(),
        (forall|j: int| 0 <= j < s.len() ==> s[j]) ==> count_true(s) == s.len(),
    decreases s.len(),
{
    if s.len() > 0 {
        lemma_count_true_bounds(s.drop_last());
        if forall|j: int| 0 <= j < s.len() ==> s[j] {
            assert forall|j: int| 0 <= j < s.drop_last().len() implies s.drop_last()[j] by {
                assert(s[j]);
            }
        }
    }
}

proof fn lemma_count_true_set(s: Seq<bool>, i: int)
    requires
        0 <= i < s.len(),
        !s[i],
    ensures
        count_true(s.update(i, true)) == count_true(s) + 1,
    decreases s.len(),
{
    if i == s.len() - 1 {
        assert(s.update(i, true).drop_last() =~= s.drop_last());
    } else {
        assert(s.update(i, true).drop_last() =~= s.drop_last().update(i, true));
        lemma_count_true_set(s.drop_last(), i);
    }
}

/// Draws the `count` smallest-keyed candidates, ascending by (key, index).
/// `draws` supplies one unit-exponential fixed-point variate per
/// candidate.
pub fn efraimidis_spirakis_sample(ws: &Vec<Weight>, count: usize, draws: &Vec<u64>) -> (r: Vec<usize>)
    requires
        draws@.len() == ws@.len(),
        forall|i: int| 0 <= i < ws@.len() ==> (#[trigger] ws@[i]).wf(),
    ensures
        is_es_selection(draws@, ws@, count as int, r@),
{
    let n: usize = ws.len();
    // Fixed-point keys; every product fits in 128 bits.
    let mut keys: Vec<u128> = Vec::new();
    let mut j: usize = 0;
    while j < n
        invariant
            0 <= j <= n,
            n == ws@.len(),
            draws@.len() == n,
            forall|i: int| 0 <= i < ws@.len() ==> (#[trigger] ws@[i]).wf(),
            keys@.len() == j,
            forall|t: int| 0 <= t < j ==> #[trigger] keys@[t] as int == es_key(draws@, ws@, t),
        decreases n - j,
    {
        proof {
            lemma_mul_upper_bound(
                draws@[j as int] as int,
                u64::MAX as int,
                ws@[j as int].den as int,
                u64::MAX as int,
            );
        }
        let key: u128 = ((draws[j] as u128) * (ws[j].den as u128)) / (ws[j].num as u128);
        keys.push(key);
        j = j + 1;
    }

    let k: usize = if count <= n {
        count
    } else {
        n
    };
    let mut used: Vec<bool> = Vec::new();
    let mut t: usize = 0;
    while t < n
        invariant
            used@.len() == t,
            0 <= t <= n,
            forall|i: int| 0 <= i < t ==> !(#[trigger] used@[i]),
        decreases n - t,
    {
        used.push(false);
        t = t + 1;
    }
    proof {
        lemma_count_true_none(used@);
    }

    let mut r: Vec<usize> = Vec::new();
    let mut rank: usize = 0;
    while rank < k
        invariant
            0 <= rank <= k <= n,
            n == ws@.len(),
            draws@.len() == n,
            keys@.len() == n,
            used@.len() == n,
            forall|i: int| 0 <= i < ws@.len() ==> (#[trigger] ws@[i]).wf(),
            forall|t2: int| 0 <= t2 < n ==> #[trigger] keys@[t2] as int == es_key(draws@, ws@, t2),
            r@.len() == rank,
            count_true(used@) == rank,
            forall|i: int| 0 <= i < n ==> (#[trigger] used@[i] <==> in_result(r@, i)),
            forall|a: int| 0 <= a < r@.len() ==> #[trigger] r@[a] < n,
            forall|a: int, b: int|
                0 <= a < b < r@.len() ==> key_lt(
                    es_key(draws@, ws@, #[trigger] r@[a] as int),
                    r@[a] as int,
                    es_key(draws@, ws@, #[trigger] r@[b] as int),
                    r@[b] as int,
                ),
            forall|a: int, j2: int|
                #![trigger r@[a], used@[j2]]
                0 <= a < r@.len() && 0 <= j2 < n && !used@[j2] ==> key_lt(
                    es_key(draws@, ws@, r@[a] as int),
                    r@[a] as int,
                    es_key(draws@, ws@, j2),
                    j2,
                ),
        decreases k - rank,
    {
        // Scan for the least (key, index) among the unused candidates.
        let mut best: usize = n;
        let mut scan: usize = 0;
        while scan < n
            invariant
                0 <= scan <= n,
                n == used@.len(),
                n == keys@.len(),
                best == n || (best < scan && !used@[best as int]),
                best == n ==> forall|t2: int| 0 <= t2 < scan ==> #[trigger] used@[t2],
                best < n ==> forall|t2: int|
                    0 <= t2 < scan && !(#[trigger] used@[t2]) && t2 != best ==> (
                    keys@[best as int] < keys@[t2] || (keys@[best as int] == keys@[t2] && best
                        < t2)),
            decreases n - scan,
        {
            if !used[scan] {
                if best == n {
                    best = scan;
                } else if keys[scan] < keys[best] {
                    best = scan;
                }
            }
            scan = scan + 1;
        }
        if best == n {
            // Everything is used, yet fewer than n candidates were taken.
            proof {
                lemma_count_true_bounds(used@);
            }
            assert(false);
        }
        let ghost used0 = used@;
        let ghost r0 = r@;
        proof {
            lemma_count_true_set(used0, best as int);
        }
        used.set(best, true);
        r.push(best);
        rank = rank + 1;
        proof {
            assert(r@ == r0.push(best));
            // Membership bookkeeping: the used flags track the selection.
            assert forall|i: int| 0 <= i < n implies (used@[i] <==> in_result(r@, i)) by {
                if i == best as int {
                    assert(r@[r0.len() as int] as int == i);
                    assert(in_result(r@, i));
                } else {
                    if in_result(r0, i) {
                        let a = choose|a: int| 0 <= a < r0.len() && r0[a] as int == i;
                        assert(r@[a] as int == i);
                        assert(in_result(r@, i));
                    }
                    if in_result(r@, i) {
                        let a = choose|a: int| 0 <= a < r@.len() && r@[a] as int == i;
                        assert(a < r0.len());
                        assert(r0[a] as int == i);
                        assert(in_result(r0, i));
                    }
                }
            }
            // The appended pick extends the ascending (key, index) order.
            assert forall|a: int, b: int| 0 <= a < b < r@.len() implies key_lt(
                es_key(draws@, ws@, r@[a] as int),
                r@[a] as int,
                es_key(draws@, ws@, r@[b] as int),
                r@[b] as int,
            ) by {
                if b == r@.len() - 1 {
                    assert(r0[a] == r@[a]);
                    assert(!used0[best as int]);
                    assert(key_lt(
                        es_key(draws@, ws@, r0[a] as int),
                        r0[a] as int,
                        es_key(draws@, ws@, best as int),
                        best as int,
                    ));
                } else {
                    assert(r0[a] == r@[a] && r0[b] == r@[b]);
                }
            }
            // Every selected pair still lies below every unselected one.
            assert forall|a: int, j2: int|
                #![trigger r@[a], used@[j2]]
                0 <= a < r@.len() && 0 <= j2 < n && !used@[j2] implies key_lt(
                es_key(draws@, ws@, r@[a] as int),
                r@[a] as int,
                es_key(draws@, ws@, j2),
                j2,
            ) by {
                assert(j2 != best as int);
                assert(!used0[j2]);
                if a < r0.len() {
                    assert(r@[a] == r0[a]);
                    assert(key_lt(
                        es_key(draws@, ws@, r0[a] as int),
                        r0[a] as int,
                        es_key(draws@, ws@, j2),
                        j2,
                    ));
                } else {
                    // The new pick was minimal among the then-unused.
                    assert(r@[a] == best);
                    assert(keys@[best as int] < keys@[j2] || (keys@[best as int] == keys@[j2]
                        && (best as int) < j2));
                    assert(keys@[best as int] as int == es_key(draws@, ws@, best as int));
                    assert(keys@[j2] as int == es_key(draws@, ws@, j2));
                }
            }
        }
    }
    proof {
        assert forall|a: int, j2: int|
            #![trigger r@[a], in_result(r@, j2)]
            0 <= a < r@.len() && 0 <= j2 < n && !in_result(r@, j2) implies key_lt(
            es_key(draws@, ws@, r@[a] as int),
            r@[a] as int,
            es_key(draws@, ws@, j2),
            j2,
        ) by {
            assert(!used@[j2]);
        }
    }
    r
}

proof fn lemma_count_true_none(s: Seq<bool>)
    requires
        forall|i: int| 0 <= i < s.len() ==> !(#[trigger] s[i]),
    ensures
        count_true(s) == 0,
    decreases s.len(),
{
    if s.len() > 0 {
        lemma_count_true_none(s.drop_last());
    }
}

/// Law (structure of the uniform case): with identical weights, the first
/// selected index carries a minimal draw — for every other candidate
/// either its draw is strictly larger, or the two keys tie and the
/// selected index is the smaller. Over exchangeable draws the first index
/// is therefore uniformly distributed.
pub proof fn lemma_equal_weights_first_pick(
    draws: Seq<u64>,
    ws: Seq<Weight>,
    count: int,
    r: Seq<usize>,
)
    requires
        is_es_selection(draws, ws, count, r),
        count >= 1,
        ws.len() >= 1,
        draws.len() == ws.len(),
        ws[0].wf(),
        forall|i: int| 0 <= i < ws.len() ==> #[trigger] ws[i] == ws[0],
    ensures
        r.len() >= 1,
        forall|j: int|
            0 <= j < ws.len() && j != r[0] as int ==> #[trigger] draws[j] > draws[r[0] as int]
                || (es_key(draws, ws, r[0] as int) == es_key(draws, ws, j) && (r[0] as int) < j),
{
    let r0 = r[0] as int;
    assert forall|j: int|
        0 <= j < ws.len() && j != r0 implies draws[r0] < draws[j] || (es_key(draws, ws, r0)
        == es_key(draws, ws, j) && r0 < j) by {
        if !in_result(r, j) {
            assert(key_lt(es_key(draws, ws, r0), r0, es_key(draws, ws, j), j));
        } else {
            let a = choose|a: int| 0 <= a < r.len() && r[a] as int == j;
            assert(a != 0);
            assert(key_lt(es_key(draws, ws, r0), r0, es_key(draws, ws, r[a] as int), r[a] as int));
        }
        if es_key(draws, ws, r0) < es_key(draws, ws, j) {
            // The key is monotone in the draw when weights agree.
            if draws[r0] >= draws[j] {
                lemma_mul_inequality(draws[j] as int, draws[r0] as int, ws[0].den as int);
                lemma_div_is_ordered(
                    draws[j] * ws[j].den,
                    draws[r0] * ws[r0].den,
                    ws[0].num as int,
                );
                assert(false);
            }
        }
    }
}

} // verus!
