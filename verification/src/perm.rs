//! Permutations: validity, identity, inverse and composition.

use vstd::prelude::*;
use vstd::set_lib::{lemma_int_range, lemma_subset_equality, set_int_range};
use crate::Error;

verus! {

/// A permutation of size `n`: `n` values, each below `n`, all distinct.
pub open spec fn is_perm(p: Seq<usize>) -> bool {
    &&& forall|i: int| 0 <= i < p.len() ==> (#[trigger] p[i]) < p.len()
    &&& forall|i: int, j: int| 0 <= i < j < p.len() ==> p[i] != p[j]
}

/// The identity permutation of size `n`.
pub open spec fn identity_seq(n: nat) -> Seq<usize> {
    Seq::new(n, |i: int| i as usize)
}

/// `q` holds, at the position given by each value of `p`, that value's index.
pub open spec fn is_inverse_of(q: Seq<usize>, p: Seq<usize>) -> bool {
    &&& q.len() == p.len()
    &&& forall|i: int| 0 <= i < p.len() ==> (#[trigger] q[p[i] as int]) as int == i
}

/// `c` is the composition of `a` with `b`: `c[b[i]] == a[i]` for every `i`.
pub open spec fn is_composition_of(c: Seq<usize>, a: Seq<usize>, b: Seq<usize>) -> bool {
    &&& c.len() == a.len()
    &&& forall|i: int| 0 <= i < b.len() ==> (#[trigger] c[b[i] as int]) == a[i]
}

/// Some position of `p` holds the value `v`.
pub open spec fn contains_value(p: Seq<usize>, v: int) -> bool {
    exists|i: int| 0 <= i < p.len() && p[i] == v
}

/// Every value below `p.len()` occurs in a permutation: an injective map of a
/// finite range into itself reaches the whole range.
pub proof fn lemma_perm_surjective(p: Seq<usize>)
    requires
        is_perm(p),
    ensures
        forall|v: int| 0 <= v < p.len() ==> #[trigger] contains_value(p, v),
{
    let n = p.len() as int;
    let q = p.map_values(|x: usize| x as int);
    assert(q.no_duplicates());
    q.unique_seq_to_set();
    lemma_int_range(0, n);
    assert(q.to_set().subset_of(set_int_range(0, n))) by {
        assert forall|x: int| q.to_set().contains(x) implies set_int_range(0, n).contains(x) by {
            let i = choose|i: int| 0 <= i < q.len() && q[i] == x;
            assert(p[i] < p.len());
        }
    }
    lemma_subset_equality(q.to_set(), set_int_range(0, n));
    assert forall|v: int| 0 <= v < p.len() implies #[trigger] contains_value(p, v) by {
        assert(set_int_range(0, n).contains(v));
        assert(q.to_set().contains(v));
        assert(q.contains(v));
        let i = choose|i: int| 0 <= i < q.len() && q[i] == v;
        assert(p[i] == v);
    }
}

/// Decides whether `p` is a permutation of `{0, ..., p.len() - 1}`.
pub fn is_permutation(p: &Vec<usize>) -> (r: bool)
    ensures
        r == is_perm(p@),
{
    let n = p.len();
    let mut seen: Vec<bool> = Vec::new();
    let mut f: usize = 0;
    while f < n
        invariant
            seen@.len() == f,
            f <= n,
            forall|v: int| 0 <= v < f ==> !(#[trigger] seen@[v]),
        decreases n - f,
    {
        seen.push(false);
        f += 1;
    }
    let mut i: usize = 0;
    while i < n
        invariant
            seen@.len() == n,
            p@.len() == n,
            i <= n,
            forall|j: int| 0 <= j < i ==> (#[trigger] p@[j]) < n,
            forall|j: int, k: int| 0 <= j < k < i ==> p@[j] != p@[k],
            forall|v: int| 0 <= v < n ==>
                ((#[trigger] seen@[v]) <==> exists|j: int| 0 <= j < i && p@[j] == v),
        decreases n - i,
    {
        let v = p[i];
        if v >= n {
            assert(!is_perm(p@));
            return false;
        }
        if seen[v] {
            proof {
                let j = choose|j: int| 0 <= j < i && p@[j] == v as int;
                assert(p@[j] == p@[i as int]);
            }
            return false;
        }
        seen.set(v, true);
        proof {
            assert(p@[i as int] == v);
        }
        i += 1;
    }
    true
}

/// Builds the identity permutation of size `n` as a vector.
pub fn identity_vec(n: usize) -> (r: Vec<usize>)
    ensures
        r@ == identity_seq(n as nat),
        is_perm(r@),
{
    let mut r: Vec<usize> = Vec::new();
    let mut i: usize = 0;
    while i < n
        invariant
            r@.len() == i,
            i <= n,
            forall|j: int| 0 <= j < i ==> (#[trigger] r@[j]) as int == j,
        decreases n - i,
    {
        r.push(i);
        i += 1;
    }
    proof {
        assert(r@ =~= identity_seq(n as nat));
    }
    r
}

/// The inverse of a single permutation.
pub fn inverse_one(p: &Vec<usize>) -> (r: Vec<usize>)
    requires
        is_perm(p@),
    ensures
        is_inverse_of(r@, p@),
        is_perm(r@),
{
    let n = p.len();
    let mut r: Vec<usize> = Vec::new();
    let mut f: usize = 0;
    while f < n
        invariant
            r@.len() == f,
            f <= n,
        decreases n - f,
    {
        r.push(0);
        f += 1;
    }
    let mut i: usize = 0;
    while i < n
        invariant
            r@.len() == n,
            p@.len() == n,
            is_perm(p@),
            i <= n,
            forall|j: int| 0 <= j < i ==> (#[trigger] r@[p@[j] as int]) as int == j,
        decreases n - i,
    {
        let v = p[i];
        r.set(v, i);
        proof {
            assert forall|j: int| 0 <= j < i + 1 implies
                (#[trigger] r@[p@[j] as int]) as int == j by {
                if j < i {
                    assert(p@[j] != p@[i as int]);
                }
            }
        }
        i += 1;
    }
    proof {
        lemma_perm_surjective(p@);
        assert forall|a: int, b: int| 0 <= a < b < n implies r@[a] != r@[b] by {
            assert(contains_value(p@, a));
            assert(contains_value(p@, b));
            let ia = choose|i: int| 0 <= i < p@.len() && p@[i] == a;
            let ib = choose|i: int| 0 <= i < p@.len() && p@[i] == b;
            assert(r@[p@[ia] as int] as int == ia);
            assert(r@[p@[ib] as int] as int == ib);
        }
        assert forall|a: int| 0 <= a < n implies (#[trigger] r@[a]) < n by {
            assert(contains_value(p@, a));
            let ia = choose|i: int| 0 <= i < p@.len() && p@[i] == a;
            assert(r@[p@[ia] as int] as int == ia);
        }
    }
    r
}

/// Inverts every member of a population, preserving order.
pub fn permu2inverse(permus: Vec<Vec<usize>>) -> (r: Vec<Vec<usize>>)
    requires
        forall|k: int| 0 <= k < permus@.len() ==> is_perm((#[trigger] permus@[k])@),
    ensures
        r@.len() == permus@.len(),
        forall|k: int| 0 <= k < permus@.len() ==>
            is_inverse_of((#[trigger] r@[k])@, permus@[k]@) && is_perm(r@[k]@),
{
    let mut r: Vec<Vec<usize>> = Vec::new();
    let mut k: usize = 0;
    while k < permus.len()
        invariant
            forall|j: int| 0 <= j < permus@.len() ==> is_perm((#[trigger] permus@[j])@),
            r@.len() == k,
            k <= permus@.len(),
            forall|j: int| 0 <= j < k ==>
                is_inverse_of((#[trigger] r@[j])@, permus@[j]@) && is_perm(r@[j]@),
        decreases permus@.len() - k,
    {
        let inv = inverse_one(&permus[k]);
        r.push(inv);
        k += 1;
    }
    r
}

/// Inverting twice gives the permutation back.
pub proof fn lemma_inverse_involution(p: Seq<usize>, q: Seq<usize>, r: Seq<usize>)
    requires
        is_perm(p),
        is_inverse_of(q, p),
        is_inverse_of(r, q),
    ensures
        r == p,
{
    assert forall|i: int| 0 <= i < p.len() implies r[i] == p[i] by {
        assert(q[p[i] as int] as int == i);
        assert(r[q[p[i] as int] as int] as int == p[i] as int);
    }
    assert(r =~= p);
}

/// Composes `a` with a single permutation `b`; the result places `a[i]` at
/// position `b[i]`.
pub fn compose_one(a: &Vec<usize>, b: &Vec<usize>) -> (r: Result<Vec<usize>, Error>)
    requires
        is_perm(b@),
    ensures
        match r {
            Ok(c) => {
                &&& a@.len() == b@.len()
                &&& is_composition_of(c@, a@, b@)
                &&& (is_perm(a@) ==> is_perm(c@))
            },
            Err(e) => e == Error::ShapeMismatchError && a@.len() != b@.len(),
        },
{
    let n = a.len();
    if b.len() != n {
        return Err(Error::ShapeMismatchError);
    }
    let mut c: Vec<usize> = Vec::new();
    let mut f: usize = 0;
    while f < n
        invariant
            c@.len() == f,
            f <= n,
        decreases n - f,
    {
        c.push(0);
        f += 1;
    }
    let mut i: usize = 0;
    while i < n
        invariant
            c@.len() == n,
            a@.len() == n,
            b@.len() == n,
            is_perm(b@),
            i <= n,
            forall|j: int| 0 <= j < i ==> (#[trigger] c@[b@[j] as int]) == a@[j],
        decreases n - i,
    {
        let pos = b[i];
        c.set(pos, a[i]);
        proof {
            assert forall|j: int| 0 <= j < i + 1 implies
                (#[trigger] c@[b@[j] as int]) == a@[j] by {
                if j < i {
                    assert(b@[j] != b@[i as int]);
                }
            }
        }
        i += 1;
    }
    proof {
        if is_perm(a@) {
            lemma_perm_surjective(b@);
            assert forall|v: int| 0 <= v < n implies (#[trigger] c@[v]) < n by {
                assert(contains_value(b@, v));
                let i0 = choose|i: int| 0 <= i < b@.len() && b@[i] == v;
                assert(c@[b@[i0] as int] == a@[i0]);
            }
            assert forall|v: int, w: int| 0 <= v < w < n implies c@[v] != c@[w] by {
                assert(contains_value(b@, v));
                assert(contains_value(b@, w));
                let iv = choose|i: int| 0 <= i < b@.len() && b@[i] == v;
                let iw = choose|i: int| 0 <= i < b@.len() && b@[i] == w;
                assert(c@[b@[iv] as int] == a@[iv]);
                assert(c@[b@[iw] as int] == a@[iw]);
                assert(iv != iw);
                if iv < iw {
                    assert(a@[iv] != a@[iw]);
                } else {
                    assert(a@[iw] != a@[iv]);
                }
            }
        }
    }
    Ok(c)
}

/// Composes `vec` with every member of `pop`, preserving order.
pub fn compose(vec: Vec<usize>, pop: Vec<Vec<usize>>) -> (r: Result<Vec<Vec<usize>>, Error>)
    requires
        forall|k: int| 0 <= k < pop@.len() ==> is_perm((#[trigger] pop@[k])@),
    ensures
        match r {
            Ok(out) => {
                &&& out@.len() == pop@.len()
                &&& forall|k: int| 0 <= k < pop@.len() ==>
                    (#[trigger] pop@[k])@.len() == vec@.len()
                &&& forall|k: int| 0 <= k < pop@.len() ==>
                    is_composition_of((#[trigger] out@[k])@, vec@, pop@[k]@)
            },
            Err(e) => {
                &&& e == Error::ShapeMismatchError
                &&& exists|k: int| 0 <= k < pop@.len()
                    && (#[trigger] pop@[k])@.len() != vec@.len()
            },
        },
{
    let mut out: Vec<Vec<usize>> = Vec::new();
    let mut k: usize = 0;
    while k < pop.len()
        invariant
            forall|j: int| 0 <= j < pop@.len() ==> is_perm((#[trigger] pop@[j])@),
            out@.len() == k,
            k <= pop@.len(),
            forall|j: int| 0 <= j < k ==> (#[trigger] pop@[j])@.len() == vec@.len(),
            forall|j: int| 0 <= j < k ==>
                is_composition_of((#[trigger] out@[j])@, vec@, pop@[j]@),
        decreases pop@.len() - k,
    {
        match compose_one(&vec, &pop[k]) {
            Ok(c) => {
                out.push(c);
            },
            Err(e) => {
                return Err(e);
            },
        }
        k += 1;
    }
    Ok(out)
}

/// The identity is right-neutral under composition: placing `p[i]` at the
/// position given by the identity reproduces `p`.
pub proof fn lemma_compose_identity_right(p: Seq<usize>, c: Seq<usize>)
    requires
        p.len() <= usize::MAX,
        is_composition_of(c, p, identity_seq(p.len())),
    ensures
        c == p,
{
    assert forall|i: int| 0 <= i < p.len() implies c[i] == p[i] by {
        assert(identity_seq(p.len())[i] == i as usize);
        assert(c[identity_seq(p.len())[i] as int] == p[i]);
    }
    assert(c =~= p);
}

/// Composing the identity with `p` yields the inverse of `p`.
pub proof fn lemma_compose_identity_left(p: Seq<usize>, c: Seq<usize>)
    requires
        p.len() <= usize::MAX,
        is_perm(p),
        is_composition_of(c, identity_seq(p.len()), p),
    ensures
        is_inverse_of(c, p),
{
    assert forall|i: int| 0 <= i < p.len() implies (#[trigger] c[p[i] as int]) as int == i by {
        assert(c[p[i] as int] == identity_seq(p.len())[i]);
    }
}

/// On the self-inverse permutations, the identity is also left-neutral under
/// composition.
pub proof fn lemma_compose_identity_left_involution(p: Seq<usize>, c: Seq<usize>)
    requires
        p.len() <= usize::MAX,
        is_perm(p),
        is_inverse_of(p, p),
        is_composition_of(c, identity_seq(p.len()), p),
    ensures
        c == p,
{
    lemma_compose_identity_left(p, c);
    lemma_perm_surjective(p);
    assert forall|j: int| 0 <= j < p.len() implies c[j] == p[j] by {
        assert(contains_value(p, j));
        let i = choose|i: int| 0 <= i < p.len() && p[i] == j;
        assert(c[p[i] as int] as int == i);
        assert(p[p[i] as int] as int == i);
    }
    assert(c =~= p);
}

/// Composes each vector of `vecs` with the matching population of `pops`,
/// every pairing handled independently.
///
/// Relies on rayon's `into_par_iter`, `zip`, `map` and `collect` into
/// `Result`: the output preserves input order pairwise, and any pairing's
/// error aborts the whole call with that error.
#[verifier::external_body]
fn par_compose(vecs: Vec<Vec<usize>>, pops: Vec<Vec<Vec<usize>>>) -> (r: Result<
    Vec<Vec<Vec<usize>>>,
    Error,
>)
    requires
        vecs@.len() == pops@.len(),
        forall|k: int, m: int| 0 <= k < pops@.len() && 0 <= m < (#[trigger] pops@[k])@.len() ==>
            is_perm(#[trigger] (pops@[k]@[m])@),
    ensures
        match r {
            Ok(out) => {
                &&& out@.len() == pops@.len()
                &&& forall|k: int, m: int|
                    0 <= k < pops@.len() && 0 <= m < (#[trigger] pops@[k])@.len() ==>
                        (#[trigger] (pops@[k]@[m])@).len() == vecs@[k]@.len()
                &&& forall|k: int| 0 <= k < pops@.len() ==>
                    (#[trigger] out@[k])@.len() == pops@[k]@.len()
                &&& forall|k: int, m: int|
                    0 <= k < pops@.len() && 0 <= m < (#[trigger] pops@[k])@.len() ==>
                        is_composition_of(#[trigger] (out@[k]@[m])@, vecs@[k]@, pops@[k]@[m]@)
            },
            Err(e) => {
                &&& e == Error::ShapeMismatchError
                &&& exists|k: int, m: int|
                    0 <= k < pops@.len() && 0 <= m < (#[trigger] pops@[k])@.len()
                        && (#[trigger] (pops@[k]@[m])@).len() != vecs@[k]@.len()
            },
        },
{
    rayon::iter::ParallelIterator::collect(rayon::iter::ParallelIterator::map(
        rayon::iter::IndexedParallelIterator::zip(
            rayon::iter::IntoParallelIterator::into_par_iter(pops),
            rayon::iter::IntoParallelIterator::into_par_iter(vecs),
        ),
        |(pop, vec)| compose(vec, pop),
    ))
}

/// Applies `compose` to each vector/population pairing, the pairings handled
/// independently of one another.
pub fn compose_par(vecs: Vec<Vec<usize>>, pops: Vec<Vec<Vec<usize>>>) -> (r: Result<
    Vec<Vec<Vec<usize>>>,
    Error,
>)
    requires
        vecs@.len() == pops@.len(),
        forall|k: int, m: int| 0 <= k < pops@.len() && 0 <= m < (#[trigger] pops@[k])@.len() ==>
            is_perm(#[trigger] (pops@[k]@[m])@),
    ensures
        match r {
            Ok(out) => {
                &&& out@.len() == pops@.len()
                &&& forall|k: int, m: int|
                    0 <= k < pops@.len() && 0 <= m < (#[trigger] pops@[k])@.len() ==>
                        (#[trigger] (pops@[k]@[m])@).len() == vecs@[k]@.len()
                &&& forall|k: int| 0 <= k < pops@.len() ==>
                    (#[trigger] out@[k])@.len() == pops@[k]@.len()
                &&& forall|k: int, m: int|
                    0 <= k < pops@.len() && 0 <= m < (#[trigger] pops@[k])@.len() ==>
                        is_composition_of(#[trigger] (out@[k]@[m])@, vecs@[k]@, pops@[k]@[m]@)
            },
            Err(e) => {
                &&& e == Error::ShapeMismatchError
                &&& exists|k: int, m: int|
                    0 <= k < pops@.len() && 0 <= m < (#[trigger] pops@[k])@.len()
                        && (#[trigger] (pops@[k]@[m])@).len() != vecs@[k]@.len()
            },
        },
{
    par_compose(vecs, pops)
}

} // verus!
