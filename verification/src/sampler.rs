//! Plackett-Luce sampling: full rankings drawn by sequential weighted
//! removal from a positive weight vector.

use vstd::prelude::*;
use crate::perm::{identity_vec, is_perm};
use crate::Error;

verus! {

/// The sum of the first `k` weights.
pub open spec fn sum_to(ws: Seq<u64>, k: int) -> int
    decreases k,
{
    if k <= 0 {
        0
    } else {
        sum_to(ws, k - 1) + ws[k - 1]
    }
}

/// The sum of a whole weight vector.
pub open spec fn sum_weights(ws: Seq<u64>) -> int {
    sum_to(ws, ws.len() as int)
}

/// A partial sum depends only on the entries it covers.
proof fn lemma_sum_to_congruence(s1: Seq<u64>, s2: Seq<u64>, k: int)
    requires
        forall|i: int| 0 <= i < k ==> s1[i] == s2[i],
    ensures
        sum_to(s1, k) == sum_to(s2, k),
    decreases k,
{
    if k > 0 {
        lemma_sum_to_congruence(s1, s2, k - 1);
    }
}

proof fn lemma_sum_to_mono(ws: Seq<u64>, k1: int, k2: int)
    requires
        0 <= k1 <= k2 <= ws.len(),
    ensures
        sum_to(ws, k1) <= sum_to(ws, k2),
    decreases k2 - k1,
{
    if k1 < k2 {
        lemma_sum_to_mono(ws, k1, k2 - 1);
    }
}

proof fn lemma_sum_to_nonneg(ws: Seq<u64>, k: int)
    ensures
        sum_to(ws, k) >= 0,
    decreases k,
{
    if k > 0 {
        lemma_sum_to_nonneg(ws, k - 1);
    }
}

/// Each covered weight is at most the partial sum that covers it.
proof fn lemma_sum_to_ge_elem(ws: Seq<u64>, k: int, i: int)
    requires
        0 <= i < k <= ws.len(),
    ensures
        sum_to(ws, k) >= ws[i],
    decreases k,
{
    if i == k - 1 {
        lemma_sum_to_nonneg(ws, k - 1);
    } else {
        lemma_sum_to_ge_elem(ws, k - 1, i);
    }
}

/// Removing one entry removes exactly its weight from the sum.
proof fn lemma_sum_remove(ws: Seq<u64>, j: int)
    requires
        0 <= j < ws.len(),
    ensures
        sum_weights(ws.remove(j)) == sum_weights(ws) - ws[j],
    decreases ws.len(),
{
    ws.remove_ensures(j);
    let r = ws.remove(j);
    let n = ws.len() as int;
    if j == n - 1 {
        lemma_sum_to_congruence(r, ws, n - 1);
    } else {
        let dl = ws.drop_last();
        assert(forall|i: int| 0 <= i < n - 1 ==> dl[i] == ws[i]);
        lemma_sum_remove(dl, j);
        dl.remove_ensures(j);
        assert(forall|i: int| 0 <= i < n - 2 ==> r[i] == dl.remove(j)[i]) by {
            assert forall|i: int| 0 <= i < n - 2 implies r[i] == dl.remove(j)[i] by {
                if i < j {
                    assert(r[i] == ws[i]);
                    assert(dl.remove(j)[i] == dl[i]);
                } else {
                    assert(r[i] == ws[i + 1]);
                    assert(dl.remove(j)[i] == dl[i + 1]);
                }
            }
        }
        lemma_sum_to_congruence(r, dl.remove(j), n - 2);
        assert(sum_to(r, n - 1) == sum_to(r, n - 2) + r[n - 2]);
        assert(r[n - 2] == ws[n - 1]);
        lemma_sum_to_congruence(dl, ws, n - 1);
        assert(sum_to(ws, n) == sum_to(ws, n - 1) + ws[n - 1]);
    }
}

/// A non-empty vector of positive weights has a positive sum.
proof fn lemma_sum_positive(ws: Seq<u64>)
    requires
        ws.len() > 0,
        forall|i: int| 0 <= i < ws.len() ==> (#[trigger] ws[i]) > 0,
    ensures
        sum_weights(ws) > 0,
{
    lemma_sum_to_nonneg(ws, ws.len() - 1);
    assert(sum_weights(ws) == sum_to(ws, ws.len() - 1) + ws[ws.len() - 1]);
}

/// Relies on `rand::thread_rng` and `rand::Rng::gen_range`: a draw from the
/// non-empty range `[0, bound)`, so the call returns a value below `bound`
/// and does not panic.
#[verifier::external_body]
fn rand_below(bound: u64) -> (r: u64)
    requires
        bound >= 1,
    ensures
        r < bound,
{
    rand::Rng::gen_range(&mut rand::thread_rng(), 0..bound)
}

/// The slot whose cumulative weight interval holds `r`: the unique `k` with
/// `sum_to(k) <= r < sum_to(k) + ws[k]`.
pub fn pick_index(ws: &Vec<u64>, r: u64) -> (k: usize)
    requires
        (r as int) < sum_weights(ws@),
        sum_weights(ws@) <= u64::MAX,
    ensures
        (k as int) < ws@.len(),
        sum_to(ws@, k as int) <= r as int,
        (r as int) < sum_to(ws@, k as int) + ws@[k as int],
{
    let n = ws.len();
    let mut acc: u64 = 0;
    let mut k: usize = 0;
    while k < n
        invariant
            ws@.len() == n,
            (r as int) < sum_weights(ws@),
            sum_weights(ws@) <= u64::MAX,
            k <= n,
            acc as int == sum_to(ws@, k as int),
            acc as int <= r as int,
        decreases n - k,
    {
        let w = ws[k];
        proof {
            lemma_sum_to_mono(ws@, k + 1, n as int);
        }
        if r < acc + w {
            return k;
        }
        acc = acc + w;
        k += 1;
    }
    proof {
        assert(false);
    }
    0
}

/// Draws one full ranking by sequential weighted removal: at each step one
/// remaining item is taken with probability proportional to its weight.
pub fn sample_one(weights: &Vec<u64>) -> (r: Vec<usize>)
    requires
        weights@.len() > 0,
        forall|i: int| 0 <= i < weights@.len() ==> (#[trigger] weights@[i]) > 0,
        sum_weights(weights@) <= u64::MAX,
    ensures
        r@.len() == weights@.len(),
        is_perm(r@),
{
    let n = weights.len();
    let mut items = identity_vec(n);
    let mut ws: Vec<u64> = Vec::new();
    let mut z: usize = 0;
    while z < n
        invariant
            weights@.len() == n,
            ws@.len() == z,
            z <= n,
            forall|i: int| 0 <= i < z ==> ws@[i] == weights@[i],
        decreases n - z,
    {
        ws.push(weights[z]);
        z += 1;
    }
    proof {
        lemma_sum_to_congruence(ws@, weights@, n as int);
    }
    let mut total: u64 = 0;
    let mut t: usize = 0;
    while t < n
        invariant
            ws@.len() == n,
            forall|i: int| 0 <= i < n ==> ws@[i] == weights@[i],
            weights@.len() == n,
            forall|i: int| 0 <= i < weights@.len() ==> (#[trigger] weights@[i]) > 0,
            sum_weights(weights@) <= u64::MAX,
            t <= n,
            total as int == sum_to(ws@, t as int),
        decreases n - t,
    {
        proof {
            lemma_sum_to_congruence(ws@, weights@, n as int);
            lemma_sum_to_mono(weights@, t + 1, n as int);
            lemma_sum_to_congruence(ws@, weights@, t + 1);
        }
        total = total + ws[t];
        t += 1;
    }
    let mut out: Vec<usize> = Vec::new();
    let mut round: usize = 0;
    while round < n
        invariant
            round <= n,
            out@.len() == round,
            items@.len() == n - round,
            ws@.len() == n - round,
            forall|i: int| 0 <= i < ws@.len() ==> (#[trigger] ws@[i]) > 0,
            total as int == sum_weights(ws@),
            forall|i: int| 0 <= i < items@.len() ==> (#[trigger] items@[i]) < n,
            items@.no_duplicates(),
            forall|i: int| 0 <= i < out@.len() ==> (#[trigger] out@[i]) < n,
            out@.no_duplicates(),
            forall|a: int, b: int|
                0 <= a < out@.len() && 0 <= b < items@.len() ==> out@[a] != items@[b],
        decreases n - round,
    {
        proof {
            lemma_sum_positive(ws@);
        }
        let r = rand_below(total);
        let k = pick_index(&ws, r);
        let v = items[k];
        let ghost old_items = items@;
        let ghost old_ws = ws@;
        let ghost old_out = out@;
        out.push(v);
        items.remove(k);
        let wk = ws[k];
        proof {
            lemma_sum_remove(old_ws, k as int);
            lemma_sum_to_ge_elem(old_ws, old_ws.len() as int, k as int);
        }
        ws.remove(k);
        total = total - wk;
        proof {
            old_items.remove_ensures(k as int);
            old_ws.remove_ensures(k as int);
            assert forall|i: int| 0 <= i < ws@.len() implies (#[trigger] ws@[i]) > 0 by {
                if i < k {
                    assert(ws@[i] == old_ws[i]);
                } else {
                    assert(ws@[i] == old_ws[i + 1]);
                }
            }
            assert forall|i: int| 0 <= i < items@.len() implies (#[trigger] items@[i]) < n by {
                if i < k {
                    assert(items@[i] == old_items[i]);
                } else {
                    assert(items@[i] == old_items[i + 1]);
                }
            }
            assert forall|a: int, b: int|
                0 <= a < items@.len() && 0 <= b < items@.len() && a != b implies items@[a]
                != items@[b] by {
                let sa: int = if a < k {
                    a
                } else {
                    a + 1
                };
                let sb: int = if b < k {
                    b
                } else {
                    b + 1
                };
                assert(items@[a] == old_items[sa]);
                assert(items@[b] == old_items[sb]);
            }
            assert forall|a: int, b: int|
                0 <= a < out@.len() && 0 <= b < items@.len() implies out@[a] != items@[b] by {
                let sb: int = if b < k {
                    b
                } else {
                    b + 1
                };
                assert(items@[b] == old_items[sb]);
                if a < old_out.len() {
                    assert(out@[a] == old_out[a]);
                } else {
                    assert(out@[a] == old_items[k as int]);
                    assert(sb != k);
                }
            }
            assert forall|a: int, b: int| 0 <= a < b < out@.len() implies out@[a]
                != out@[b] by {
                if b < old_out.len() {
                } else {
                    assert(out@[b] == old_items[k as int]);
                    assert(out@[a] == old_out[a]);
                }
            }
        }
        round += 1;
    }
    out
}

/// Draws `n_samples` independent full rankings, each by a fresh sequential
/// weighted removal from the whole weight vector; an empty vector or a
/// weight of zero is rejected.
pub fn sample_pl(weights: Vec<u64>, n_samples: usize) -> (r: Result<Vec<Vec<usize>>, Error>)
    requires
        sum_weights(weights@) <= u64::MAX,
    ensures
        match r {
            Ok(pop) => {
                &&& weights@.len() > 0
                &&& forall|i: int| 0 <= i < weights@.len() ==> (#[trigger] weights@[i]) > 0
                &&& pop@.len() == n_samples
                &&& forall|k: int|
                    0 <= k < n_samples ==> is_perm((#[trigger] pop@[k])@) && pop@[k]@.len()
                        == weights@.len()
            },
            Err(e) => {
                &&& e == Error::InvalidWeightError
                &&& (weights@.len() == 0 || exists|i: int|
                    0 <= i < weights@.len() && (#[trigger] weights@[i]) == 0)
            },
        },
{
    let n = weights.len();
    if n == 0 {
        return Err(Error::InvalidWeightError);
    }
    let mut c: usize = 0;
    while c < n
        invariant
            weights@.len() == n,
            c <= n,
            forall|i: int| 0 <= i < c ==> (#[trigger] weights@[i]) > 0,
        decreases n - c,
    {
        if weights[c] == 0 {
            return Err(Error::InvalidWeightError);
        }
        c += 1;
    }
    let mut pop: Vec<Vec<usize>> = Vec::new();
    let mut s: usize = 0;
    while s < n_samples
        invariant
            weights@.len() == n,
            n > 0,
            forall|i: int| 0 <= i < weights@.len() ==> (#[trigger] weights@[i]) > 0,
            sum_weights(weights@) <= u64::MAX,
            pop@.len() == s,
            s <= n_samples,
            forall|k: int| 0 <= k < s ==> is_perm((#[trigger] pop@[k])@) && pop@[k]@.len() == n,
        decreases n_samples - s,
    {
        let sample = sample_one(&weights);
        pop.push(sample);
        s += 1;
    }
    Ok(pop)
}

} // verus!
