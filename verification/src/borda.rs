//! Borda consensus: the permutation that lists items by ascending summed
//! rank over a population, ties broken by ascending item value.

use vstd::prelude::*;
use crate::perm::{contains_value, is_perm, lemma_perm_surjective};
use crate::views;

verus! {

/// The position of value `v` inside `p`; meaningful when `p` is a
/// permutation holding `v`.
pub open spec fn pos_of(p: Seq<usize>, v: usize) -> int {
    choose|i: int| 0 <= i < p.len() && p[i] == v
}

/// In a permutation each value has exactly one position.
pub proof fn lemma_pos_of(p: Seq<usize>, v: usize)
    requires
        is_perm(p),
        (v as int) < p.len(),
    ensures
        0 <= pos_of(p, v) < p.len(),
        p[pos_of(p, v)] == v,
        forall|j: int| 0 <= j < p.len() && p[j] == v ==> j == pos_of(p, v),
{
    lemma_perm_surjective(p);
    assert(contains_value(p, v as int));
    let i = choose|i: int| 0 <= i < p.len() && p[i] == v as int;
    assert(p[i] == v);
    let w = pos_of(p, v);
    assert(0 <= w < p.len() && p[w] == v);
    assert forall|j: int| 0 <= j < p.len() && p[j] == v implies j == w by {
        if j < w {
            assert(p[j] != p[w]);
        } else if j > w {
            assert(p[w] != p[j]);
        }
    }
}

/// The summed rank of value `v` over the members of `pop` from index `k`
/// on.
pub open spec fn score_from(pop: Seq<Seq<usize>>, k: int, v: usize) -> int
    decreases pop.len() - k,
{
    if k >= pop.len() {
        0
    } else {
        pos_of(pop[k], v) + score_from(pop, k + 1, v)
    }
}

/// The summed rank of value `v` over the whole population: the sum of its
/// index within each member.
pub open spec fn score_of(pop: Seq<Seq<usize>>, v: usize) -> int {
    score_from(pop, 0, v)
}

/// Every member is a permutation of the common size `n`.
pub open spec fn pop_ok(pop: Seq<Seq<usize>>, n: int) -> bool {
    forall|k: int| 0 <= k < pop.len() ==> is_perm(#[trigger] pop[k]) && pop[k].len() == n
}

/// The consensus order: `a` before `b` when its summed rank is smaller, or
/// equal with the smaller item value.
pub open spec fn key_lt(pop: Seq<Seq<usize>>, a: usize, b: usize) -> bool {
    ||| score_of(pop, a) < score_of(pop, b)
    ||| (score_of(pop, a) == score_of(pop, b) && a < b)
}

proof fn lemma_score_from_bounds(pop: Seq<Seq<usize>>, n: int, k: int, v: usize)
    requires
        pop_ok(pop, n),
        0 <= k <= pop.len(),
        (v as int) < n,
        n >= 1,
    ensures
        0 <= score_from(pop, k, v) <= (pop.len() - k) * n,
    decreases pop.len() - k,
{
    if k < pop.len() {
        lemma_pos_of(pop[k], v);
        lemma_score_from_bounds(pop, n, k + 1, v);
        let l = pop.len() as int;
        assert((l - k) * n == n + (l - k - 1) * n) by (nonlinear_arith);
    } else {
        assert((pop.len() - k) * n == 0) by (nonlinear_arith)
            requires
                k == pop.len(),
        ;
    }
}

/// Two sequences over the same item set, both strictly sorted by the
/// consensus order, agree from position `j` on once they agree before it.
proof fn lemma_sorted_unique_from(pop: Seq<Seq<usize>>, s1: Seq<usize>, s2: Seq<usize>, j: int)
    requires
        is_perm(s1),
        is_perm(s2),
        s1.len() == s2.len(),
        forall|a: int, b: int| 0 <= a < b < s1.len() ==> key_lt(
            pop,
            #[trigger] s1[a],
            #[trigger] s1[b],
        ),
        forall|a: int, b: int| 0 <= a < b < s2.len() ==> key_lt(
            pop,
            #[trigger] s2[a],
            #[trigger] s2[b],
        ),
        0 <= j <= s1.len(),
        forall|idx: int| 0 <= idx < j ==> s1[idx] == s2[idx],
    ensures
        s1 == s2,
    decreases s1.len() - j,
{
    let n = s1.len() as int;
    if j == n {
        assert(s1 =~= s2);
    } else {
        lemma_perm_surjective(s1);
        lemma_perm_surjective(s2);
        assert(contains_value(s2, s1[j] as int));
        let m = choose|i: int| 0 <= i < s2.len() && s2[i] == s1[j] as int;
        assert(m >= j) by {
            if m < j {
                assert(s1[m] == s2[m]);
                assert(s1[m] == s1[j]);
            }
        }
        assert(contains_value(s1, s2[j] as int));
        let m2 = choose|i: int| 0 <= i < s1.len() && s1[i] == s2[j] as int;
        assert(m2 >= j) by {
            if m2 < j {
                assert(s1[m2] == s2[m2]);
                assert(s2[m2] == s2[j]);
            }
        }
        assert(s1[j] == s2[j]) by {
            if m > j && m2 > j {
                assert(key_lt(pop, s2[j], s2[m]));
                assert(key_lt(pop, s1[j], s1[m2]));
                assert(s2[m] == s1[j]);
                assert(s1[m2] == s2[j]);
            }
        }
        lemma_sorted_unique_from(pop, s1, s2, j + 1);
    }
}

/// The consensus order admits one sorted arrangement: two permutations of
/// the same size both strictly sorted by it are equal.
pub proof fn lemma_sorted_by_key_unique(pop: Seq<Seq<usize>>, s1: Seq<usize>, s2: Seq<usize>)
    requires
        is_perm(s1),
        is_perm(s2),
        s1.len() == s2.len(),
        forall|a: int, b: int| 0 <= a < b < s1.len() ==> key_lt(
            pop,
            #[trigger] s1[a],
            #[trigger] s1[b],
        ),
        forall|a: int, b: int| 0 <= a < b < s2.len() ==> key_lt(
            pop,
            #[trigger] s2[a],
            #[trigger] s2[b],
        ),
    ensures
        s1 == s2,
{
    lemma_sorted_unique_from(pop, s1, s2, 0);
}

proof fn lemma_score_copies_from(pop: Seq<Seq<usize>>, v: usize, k: int)
    requires
        pop.len() >= 1,
        forall|i: int| 0 <= i < pop.len() ==> #[trigger] pop[i] == pop[0],
        is_perm(pop[0]),
        (v as int) < pop[0].len(),
        0 <= k <= pop.len(),
    ensures
        score_from(pop, k, v) == (pop.len() - k) * pos_of(pop[0], v),
    decreases pop.len() - k,
{
    let l = pop.len() as int;
    let p0 = pos_of(pop[0], v);
    if k < l {
        assert(pop[k] == pop[0]);
        lemma_score_copies_from(pop, v, k + 1);
        assert((l - k) * p0 == p0 + (l - k - 1) * p0) by (nonlinear_arith);
    } else {
        assert((l - k) * p0 == 0) by (nonlinear_arith)
            requires
                k == l,
        ;
    }
}

/// A population of identical members has its common member as the Borda
/// consensus: the common member is itself sorted by the consensus order.
pub proof fn lemma_borda_copies(pop: Seq<Seq<usize>>, r: Seq<usize>)
    requires
        pop.len() >= 1,
        forall|i: int| 0 <= i < pop.len() ==> #[trigger] pop[i] == pop[0],
        is_perm(pop[0]),
        is_perm(r),
        r.len() == pop[0].len(),
        forall|a: int, b: int| 0 <= a < b < r.len() ==> key_lt(
            pop,
            #[trigger] r[a],
            #[trigger] r[b],
        ),
    ensures
        r == pop[0],
{
    let p = pop[0];
    let n = p.len() as int;
    let l = pop.len() as int;
    assert forall|a: int, b: int| 0 <= a < b < n implies key_lt(
        pop,
        #[trigger] p[a],
        #[trigger] p[b],
    ) by {
        lemma_pos_of(p, p[a]);
        lemma_pos_of(p, p[b]);
        assert(pos_of(p, p[a]) == a);
        assert(pos_of(p, p[b]) == b);
        lemma_score_copies_from(pop, p[a], 0);
        lemma_score_copies_from(pop, p[b], 0);
        assert(score_of(pop, p[a]) == l * a);
        assert(score_of(pop, p[b]) == l * b);
        assert(l * a < l * b) by (nonlinear_arith)
            requires
                1 <= l,
                a < b,
        ;
    }
    lemma_sorted_by_key_unique(pop, r, p);
}

/// The Borda consensus permutation of a non-empty population: items listed
/// by ascending summed rank, ties broken by ascending item value.
pub fn borda(pop: Vec<Vec<usize>>) -> (r: Vec<usize>)
    requires
        pop@.len() > 0,
        pop_ok(views(pop@), pop@[0]@.len() as int),
        pop@.len() * pop@[0]@.len() <= usize::MAX,
    ensures
        r@.len() == pop@[0]@.len(),
        is_perm(r@),
        forall|a: int, b: int| 0 <= a < b < r@.len() ==> key_lt(
            views(pop@),
            #[trigger] r@[a],
            #[trigger] r@[b],
        ),
{
    let ghost pv = views(pop@);
    let n = pop[0].len();
    let npop = pop.len();
    proof {
        assert(pv[0] == pop@[0]@);
    }
    // summed ranks of each item over the population
    let mut scores: Vec<usize> = Vec::new();
    let mut z: usize = 0;
    while z < n
        invariant
            scores@.len() == z,
            z <= n,
            forall|u: int| 0 <= u < z ==> (#[trigger] scores@[u]) == 0,
        decreases n - z,
    {
        scores.push(0);
        z += 1;
    }
    proof {
        assert forall|u: int| 0 <= u < n implies (#[trigger] scores@[u]) as int == score_of(
            pv,
            u as usize,
        ) - score_from(pv, 0, u as usize) by {}
    }
    let mut k: usize = 0;
    while k < npop
        invariant
            pv == views(pop@),
            pop@.len() == npop,
            npop > 0,
            pop_ok(pv, n as int),
            n == pv[0].len(),
            npop * n <= usize::MAX,
            scores@.len() == n,
            k <= npop,
            forall|u: int| 0 <= u < n ==> (#[trigger] scores@[u]) as int == score_of(
                pv,
                u as usize,
            ) - score_from(pv, k as int, u as usize),
        decreases npop - k,
    {
        let ghost base = scores@;
        let ghost pk = pv[k as int];
        proof {
            assert(pk == pop@[k as int]@);
            assert(is_perm(pk) && pk.len() == n);
        }
        let mut j: usize = 0;
        while j < n
            invariant
                pv == views(pop@),
                pop@.len() == npop,
                pop_ok(pv, n as int),
                n == pv[0].len(),
                npop * n <= usize::MAX,
                scores@.len() == n,
                k < npop,
                pk == pv[k as int],
                pk == pop@[k as int]@,
                is_perm(pk),
                pk.len() == n,
                j <= n,
                forall|u: int| 0 <= u < n ==> (#[trigger] base[u]) as int == score_of(
                    pv,
                    u as usize,
                ) - score_from(pv, k as int, u as usize),
                base.len() == n,
                forall|u: int| 0 <= u < n ==> (#[trigger] scores@[u]) as int == base[u] + (
                if pk.subrange(0, j as int).contains(u as usize) {
                    pos_of(pk, u as usize)
                } else {
                    0
                }),
            decreases n - j,
        {
            let v0 = pop[k][j];
            proof {
                assert(pk[j as int] == v0);
                assert((v0 as int) < n);
                lemma_pos_of(pk, v0);
                assert(pos_of(pk, v0) == j);
                assert(!pk.subrange(0, j as int).contains(v0)) by {
                    if pk.subrange(0, j as int).contains(v0) {
                        let a = choose|a: int|
                            0 <= a < j && (#[trigger] pk.subrange(0, j as int)[a]) == v0;
                        assert(pk[a] == pk[j as int]);
                    }
                }
                assert(scores@[v0 as int] as int == base[v0 as int]);
                lemma_score_from_bounds(pv, n as int, k as int, v0);
                lemma_score_from_bounds(pv, n as int, k + 1, v0);
                lemma_score_from_bounds(pv, n as int, 0, v0);
                assert(score_from(pv, k as int, v0) == pos_of(pv[k as int], v0) + score_from(
                    pv,
                    k + 1,
                    v0,
                ));
                assert(base[v0 as int] + j == score_of(pv, v0) - score_from(pv, k + 1, v0));
                assert(score_of(pv, v0) <= npop * n) by {
                    assert((pop.len() - 0) * n as int == npop * n);
                }
            }
            let cur = scores[v0];
            scores.set(v0, cur + j);
            proof {
                assert forall|u: int| 0 <= u < n implies (#[trigger] scores@[u]) as int
                    == base[u] + (if pk.subrange(0, j + 1).contains(u as usize) {
                    pos_of(pk, u as usize)
                } else {
                    0
                }) by {
                    if u == v0 as int {
                        assert(pk.subrange(0, j + 1)[j as int] == v0);
                        assert(pk.subrange(0, j + 1).contains(v0));
                    } else {
                        if pk.subrange(0, j + 1).contains(u as usize) {
                            let a = choose|a: int|
                                0 <= a < j + 1 && (#[trigger] pk.subrange(0, j + 1)[a])
                                    == u as usize;
                            assert(a != j);
                            assert(pk.subrange(0, j as int)[a] == u as usize);
                            assert(pk.subrange(0, j as int).contains(u as usize));
                        } else {
                            if pk.subrange(0, j as int).contains(u as usize) {
                                let a = choose|a: int|
                                    0 <= a < j && (#[trigger] pk.subrange(0, j as int)[a])
                                        == u as usize;
                                assert(pk.subrange(0, j + 1)[a] == u as usize);
                                assert(pk.subrange(0, j + 1).contains(u as usize));
                            }
                        }
                    }
                }
            }
            j += 1;
        }
        proof {
            lemma_perm_surjective(pk);
            assert forall|u: int| 0 <= u < n implies (#[trigger] scores@[u]) as int == score_of(
                pv,
                u as usize,
            ) - score_from(pv, k + 1, u as usize) by {
                assert(contains_value(pk, u));
                let a = choose|a: int| 0 <= a < pk.len() && pk[a] == u;
                assert(pk.subrange(0, n as int) =~= pk);
                assert(pk.subrange(0, n as int)[a] == u as usize);
                assert(pk.subrange(0, n as int).contains(u as usize));
                assert(score_from(pv, k as int, u as usize) == pos_of(pv[k as int], u as usize)
                    + score_from(pv, k + 1, u as usize));
            }
        }
        k += 1;
    }
    proof {
        assert forall|u: int| 0 <= u < n implies (#[trigger] scores@[u]) as int == score_of(
            pv,
            u as usize,
        ) by {
            assert(score_from(pv, npop as int, u as usize) == 0);
        }
    }
    // sort items by (summed rank, value)
    let mut out: Vec<usize> = Vec::new();
    let mut v: usize = 0;
    while v < n
        invariant
            pv == views(pop@),
            scores@.len() == n,
            forall|u: int| 0 <= u < n ==> (#[trigger] scores@[u]) as int == score_of(
                pv,
                u as usize,
            ),
            out@.len() == v,
            v <= n,
            forall|idx: int| 0 <= idx < out@.len() ==> (#[trigger] out@[idx]) < v,
            forall|u: int| 0 <= u < v ==> contains_value(out@, u),
            out@.no_duplicates(),
            forall|a: int, b: int| 0 <= a < b < out@.len() ==> key_lt(
                pv,
                #[trigger] out@[a],
                #[trigger] out@[b],
            ),
        decreases n - v,
    {
        let sv = scores[v];
        let mut pos: usize = 0;
        while pos < out.len() && (scores[out[pos]] < sv || (scores[out[pos]] == sv && out[pos]
            < v))
            invariant
                pv == views(pop@),
                scores@.len() == n,
                forall|u: int| 0 <= u < n ==> (#[trigger] scores@[u]) as int == score_of(
                    pv,
                    u as usize,
                ),
                v < n,
                sv == scores@[v as int],
                out@.len() == v,
                forall|idx: int| 0 <= idx < out@.len() ==> (#[trigger] out@[idx]) < v,
                pos <= out@.len(),
                forall|idx: int| 0 <= idx < pos ==> key_lt(pv, #[trigger] out@[idx], v as usize),
            decreases out@.len() - pos,
        {
            pos += 1;
        }
        proof {
            assert forall|idx: int| pos <= idx < out@.len() implies key_lt(
                pv,
                v as usize,
                #[trigger] out@[idx],
            ) by {
                assert(out@[pos as int] < v);
                assert(!(scores@[out@[pos as int] as int] < sv || (scores@[out@[
                pos as int] as int] == sv && out@[pos as int] < v)));
                assert(key_lt(pv, v as usize, out@[pos as int]));
                if idx > pos {
                    assert(key_lt(pv, out@[pos as int], out@[idx]));
                }
            }
            out@.insert_ensures(pos as int, v as usize);
        }
        let ghost old_out = out@;
        out.insert(pos, v);
        proof {
            assert forall|idx: int| 0 <= idx < out@.len() implies (#[trigger] out@[idx]) < v
                + 1 by {
                if idx < pos {
                    assert(out@[idx] == old_out[idx]);
                } else if idx > pos {
                    assert(out@[idx] == old_out[idx - 1]);
                }
            }
            assert forall|u: int| 0 <= u < v + 1 implies contains_value(out@, u) by {
                if u == v as int {
                    assert(out@[pos as int] == v as usize);
                } else {
                    assert(contains_value(old_out, u));
                    let a = choose|a: int| 0 <= a < old_out.len() && (#[trigger] old_out[a])
                        == u;
                    if a < pos {
                        assert(out@[a] == old_out[a]);
                    } else {
                        assert(out@[a + 1] == old_out[a]);
                    }
                }
            }
            assert forall|a: int, b: int|
                0 <= a < out@.len() && 0 <= b < out@.len() && a != b implies out@[a]
                != out@[b] by {
                let oa: int = if a < pos {
                    a
                } else {
                    a - 1
                };
                let ob: int = if b < pos {
                    b
                } else {
                    b - 1
                };
                if a == pos {
                    if b != pos {
                        assert(out@[b] == old_out[ob]);
                        assert(old_out[ob] < v);
                    }
                } else if b == pos {
                    assert(out@[a] == old_out[oa]);
                    assert(old_out[oa] < v);
                } else {
                    assert(out@[a] == old_out[oa]);
                    assert(out@[b] == old_out[ob]);
                }
            }
            assert forall|a: int, b: int| 0 <= a < b < out@.len() implies key_lt(
                pv,
                #[trigger] out@[a],
                #[trigger] out@[b],
            ) by {
                let oa: int = if a < pos {
                    a
                } else {
                    a - 1
                };
                let ob: int = if b < pos {
                    b
                } else {
                    b - 1
                };
                if a == pos {
                    assert(out@[b] == old_out[ob]);
                } else if b == pos {
                    assert(out@[a] == old_out[oa]);
                } else if a != pos && b != pos {
                    assert(out@[a] == old_out[oa]);
                    assert(out@[b] == old_out[ob]);
                }
            }
        }
        v += 1;
    }
    proof {
        assert(is_perm(out@)) by {
            assert forall|i: int, j: int| 0 <= i < j < out@.len() implies out@[i] != out@[j] by {
                assert(out@.no_duplicates());
            }
        }
    }
    out
}

} // verus!
