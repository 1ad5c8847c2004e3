//! The inversion ("marina") code of a permutation: encoding, decoding, and
//! the proof that decoding inverts encoding.

use vstd::prelude::*;
use crate::perm::{contains_value, identity_seq, is_perm, lemma_perm_surjective};
use crate::Error;

verus! {

/// Number of entries of `s` strictly smaller than `v`.
pub open spec fn count_lt(s: Seq<usize>, v: usize) -> int
    decreases s.len(),
{
    if s.len() == 0 {
        0
    } else {
        count_lt(s.drop_last(), v) + if s.last() < v {
            1int
        } else {
            0int
        }
    }
}

/// The inversion code of `p`: entry `i` counts the positions `j > i` whose
/// value is smaller than `p[i]`.
pub open spec fn marina_spec(p: Seq<usize>) -> Seq<usize> {
    Seq::new(p.len(), |i: int| count_lt(p.subrange(i + 1, p.len() as int), p[i]) as usize)
}

/// One decoding step consumes the first code entry and removes the selected
/// value from the ascending list of unused values.
pub open spec fn decode_rec(code: Seq<usize>, remaining: Seq<usize>) -> Option<Seq<usize>>
    decreases code.len(),
{
    if code.len() == 0 {
        Some(Seq::empty())
    } else if code.first() as int >= remaining.len() {
        None
    } else {
        match decode_rec(code.drop_first(), remaining.remove(code.first() as int)) {
            Some(rest) => Some(seq![remaining[code.first() as int]] + rest),
            None => None,
        }
    }
}

/// The permutation a code decodes to, starting from the full ascending list
/// of values.
pub open spec fn decode_spec(code: Seq<usize>) -> Option<Seq<usize>> {
    decode_rec(code, identity_seq(code.len()))
}

/// Strictly ascending values.
pub open spec fn sorted_strict(s: Seq<usize>) -> bool {
    forall|i: int, j: int| 0 <= i < j < s.len() ==> s[i] < s[j]
}

proof fn lemma_count_lt_bounds(s: Seq<usize>, v: usize)
    ensures
        0 <= count_lt(s, v) <= s.len(),
    decreases s.len(),
{
    if s.len() > 0 {
        lemma_count_lt_bounds(s.drop_last(), v);
    }
}

/// In a sequence whose entries are all below `v`, all entries are counted.
proof fn lemma_count_lt_all(s: Seq<usize>, v: usize)
    requires
        forall|i: int| 0 <= i < s.len() ==> (#[trigger] s[i]) < v,
    ensures
        count_lt(s, v) == s.len(),
    decreases s.len(),
{
    if s.len() > 0 {
        lemma_count_lt_all(s.drop_last(), v);
    }
}

/// In a strictly sorted sequence, the count of entries below a member is
/// that member's index.
proof fn lemma_count_lt_sorted_index(s: Seq<usize>, k: int)
    requires
        sorted_strict(s),
        0 <= k < s.len(),
    ensures
        count_lt(s, s[k]) == k,
    decreases s.len(),
{
    if k == s.len() - 1 {
        assert(s.drop_last() =~= s.subrange(0, s.len() - 1));
        lemma_count_lt_all(s.drop_last(), s[k]);
    } else {
        assert(s.last() >= s[k]);
        lemma_count_lt_sorted_index(s.drop_last(), k);
    }
}

/// For a duplicate-free sequence, counting entries below `v` is counting the
/// members of its value set below `v`.
proof fn lemma_count_lt_set(s: Seq<usize>, v: usize)
    requires
        s.no_duplicates(),
    ensures
        count_lt(s, v) == s.to_set().filter(|x: usize| x < v).len(),
        s.to_set().filter(|x: usize| x < v).finite(),
    decreases s.len(),
{
    broadcast use vstd::set::group_set_axioms;
    broadcast use vstd::seq_lib::seq_to_set_is_finite;

    let f = |x: usize| x < v;
    if s.len() == 0 {
        assert(s.to_set() =~= Set::<usize>::empty());
        assert(s.to_set().filter(f) =~= Set::<usize>::empty());
    } else {
        let dl = s.drop_last();
        let last = s.last();
        assert(dl.no_duplicates());
        lemma_count_lt_set(dl, v);
        assert(!dl.contains(last)) by {
            if dl.contains(last) {
                let i = choose|i: int| 0 <= i < dl.len() && dl[i] == last;
                assert(s[i] == s[s.len() - 1]);
            }
        }
        assert(s.to_set() =~= dl.to_set().insert(last)) by {
            assert forall|x: usize| s.contains(x) implies dl.to_set().insert(last).contains(
                x,
            ) by {
                let i = choose|i: int| 0 <= i < s.len() && s[i] == x;
                if i < s.len() - 1 {
                    assert(dl[i] == x);
                }
            }
            assert forall|x: usize| dl.to_set().insert(last).contains(x) implies s.contains(
                x,
            ) by {
                if dl.contains(x) {
                    let i = choose|i: int| 0 <= i < dl.len() && dl[i] == x;
                    assert(s[i] == x);
                } else {
                    assert(s[s.len() - 1] == x);
                }
            }
        }
        assert(!dl.to_set().filter(f).contains(last));
        if last < v {
            assert(s.to_set().filter(f) =~= dl.to_set().filter(f).insert(last));
            assert(s.to_set().filter(f).len() == dl.to_set().filter(f).len() + 1);
        } else {
            assert(s.to_set().filter(f) =~= dl.to_set().filter(f));
        }
    }
}

/// Removing one entry of a duplicate-free sequence removes exactly its value
/// from the value set.
proof fn lemma_remove_set(s: Seq<usize>, k: int)
    requires
        s.no_duplicates(),
        0 <= k < s.len(),
    ensures
        s.remove(k).no_duplicates(),
        s.remove(k).to_set() == s.to_set().remove(s[k]),
{
    s.remove_ensures(k);
    let r = s.remove(k);
    assert forall|a: int, b: int|
        0 <= a < r.len() && 0 <= b < r.len() && a != b implies r[a] != r[b] by {
        let sa: int = if a < k { a } else { a + 1 };
        let sb: int = if b < k { b } else { b + 1 };
        assert(r[a] == s[sa]);
        assert(r[b] == s[sb]);
    }
    assert(r.to_set() =~= s.to_set().remove(s[k])) by {
        assert forall|x: usize| r.contains(x) implies s.to_set().remove(s[k]).contains(x) by {
            let a = choose|a: int| 0 <= a < r.len() && r[a] == x;
            let sa: int = if a < k { a } else { a + 1 };
            assert(s[sa] == x);
            assert(sa != k);
        }
        assert forall|x: usize| s.to_set().remove(s[k]).contains(x) implies r.contains(x) by {
            let a = choose|a: int| 0 <= a < s.len() && s[a] == x;
            assert(a != k);
            if a < k {
                assert(r[a] == x);
            } else {
                assert(r[a - 1] == x);
            }
        }
    }
}

proof fn lemma_remove_sorted(s: Seq<usize>, k: int)
    requires
        sorted_strict(s),
        0 <= k < s.len(),
    ensures
        sorted_strict(s.remove(k)),
{
    s.remove_ensures(k);
    let r = s.remove(k);
    assert forall|a: int, b: int| 0 <= a < b < r.len() implies r[a] < r[b] by {
        let sa: int = if a < k { a } else { a + 1 };
        let sb: int = if b < k { b } else { b + 1 };
        assert(r[a] == s[sa]);
        assert(r[b] == s[sb]);
    }
}

/// The code of a permutation, less its first entry, is the code of the
/// permutation less its first position.
proof fn lemma_marina_suffix(p: Seq<usize>)
    requires
        p.len() > 0,
    ensures
        marina_spec(p).drop_first() == marina_spec(p.drop_first()),
{
    let n = p.len() as int;
    assert forall|k: int| 0 <= k < n - 1 implies marina_spec(p).drop_first()[k] == marina_spec(
        p.drop_first(),
    )[k] by {
        assert(p.drop_first() =~= p.subrange(1, n));
        assert(p.drop_first().subrange(k + 1, n - 1) =~= p.subrange(k + 2, n));
        assert(marina_spec(p).drop_first()[k] == marina_spec(p)[k + 1]);
        assert(p.drop_first()[k] == p[k + 1]);
    }
    assert(marina_spec(p).drop_first() =~= marina_spec(p.drop_first()));
}

/// Decoding the code of a duplicate-free sequence from the ascending list of
/// its values yields the sequence back.
proof fn lemma_decode_marina_rec(p: Seq<usize>, remaining: Seq<usize>)
    requires
        p.no_duplicates(),
        p.len() <= usize::MAX,
        sorted_strict(remaining),
        remaining.to_set() == p.to_set(),
    ensures
        decode_rec(marina_spec(p), remaining) == Some(p),
    decreases p.len(),
{
    broadcast use vstd::set::group_set_axioms;
    broadcast use vstd::seq_lib::seq_to_set_is_finite;

    assert(remaining.no_duplicates());
    p.unique_seq_to_set();
    remaining.unique_seq_to_set();
    assert(remaining.len() == p.len());
    let code = marina_spec(p);
    if p.len() == 0 {
        assert(decode_rec(code, remaining) == Some(Seq::<usize>::empty()));
        assert(p =~= Seq::<usize>::empty());
    } else {
        let n = p.len() as int;
        let v = p[0];
        let tail = p.drop_first();
        assert(tail =~= p.subrange(1, n));
        assert(tail.no_duplicates());
        let c = count_lt(tail, v);
        assert(code[0] as int == c) by {
            lemma_count_lt_bounds(tail, v);
        }
        // the count over the suffix equals the count over `remaining`
        assert(!tail.contains(v)) by {
            if tail.contains(v) {
                let i = choose|i: int| 0 <= i < tail.len() && tail[i] == v;
                assert(p[i + 1] == p[0]);
            }
        }
        assert(p.to_set() =~= tail.to_set().insert(v)) by {
            assert forall|x: usize| p.contains(x) implies tail.to_set().insert(v).contains(
                x,
            ) by {
                let i = choose|i: int| 0 <= i < p.len() && p[i] == x;
                if i > 0 {
                    assert(tail[i - 1] == x);
                }
            }
            assert forall|x: usize| tail.to_set().insert(v).contains(x) implies p.contains(
                x,
            ) by {
                if tail.contains(x) {
                    let i = choose|i: int| 0 <= i < tail.len() && tail[i] == x;
                    assert(p[i + 1] == x);
                }
            }
        }
        let f = |x: usize| x < v;
        lemma_count_lt_set(tail, v);
        lemma_count_lt_set(remaining, v);
        assert(remaining.to_set().filter(f) =~= tail.to_set().filter(f));
        assert(count_lt(remaining, v) == c);
        // `v` sits in `remaining` at index `c`
        assert(remaining.contains(v)) by {
            assert(p.contains(v));
            assert(p.to_set().contains(v));
        }
        let k = choose|k: int| 0 <= k < remaining.len() && remaining[k] == v;
        lemma_count_lt_sorted_index(remaining, k);
        assert(k == c);
        assert(0 <= c < remaining.len());
        assert(remaining[c] == v);
        // recurse on the tail
        lemma_marina_suffix(p);
        lemma_remove_set(remaining, c);
        lemma_remove_sorted(remaining, c);
        assert(remaining.remove(c).to_set() =~= tail.to_set()) by {
            assert(remaining.remove(c).to_set() == p.to_set().remove(v));
            assert(p.to_set().remove(v) =~= tail.to_set());
        }
        lemma_decode_marina_rec(tail, remaining.remove(c));
        assert(code.first() as int == c);
        assert(decode_rec(code.drop_first(), remaining.remove(c)) == Some(tail));
        assert(decode_rec(code, remaining) == Some(seq![v] + tail));
        assert(seq![v] + tail =~= p);
    }
}

/// Decoding inverts encoding: the inversion code of a permutation decodes to
/// that permutation.
pub proof fn lemma_decode_encode(p: Seq<usize>)
    requires
        is_perm(p),
        p.len() <= usize::MAX,
    ensures
        decode_spec(marina_spec(p)) == Some(p),
{
    let n = p.len();
    let id = identity_seq(n);
    assert(p.no_duplicates());
    assert(sorted_strict(id)) by {
        assert forall|i: int, j: int| 0 <= i < j < n implies id[i] < id[j] by {
            assert(id[i] == i as usize);
            assert(id[j] == j as usize);
        }
    }
    lemma_perm_surjective(p);
    assert(id.to_set() =~= p.to_set()) by {
        assert forall|x: usize| id.contains(x) implies p.contains(x) by {
            let i = choose|i: int| 0 <= i < id.len() && id[i] == x;
            assert(id[i] == i as usize);
            assert(contains_value(p, x as int));
            let j = choose|j: int| 0 <= j < p.len() && p[j] == x as int;
            assert(p[j] == x);
        }
        assert forall|x: usize| p.contains(x) implies id.contains(x) by {
            let j = choose|j: int| 0 <= j < p.len() && p[j] == x;
            assert(x < n);
            assert(id[x as int] == x);
        }
    }
    assert(marina_spec(p).len() == p.len());
    lemma_decode_marina_rec(p, id);
}

/// Decoding succeeds exactly when every code entry indexes one of the values
/// still unused at its step.
pub proof fn lemma_decode_rec_success(code: Seq<usize>, remaining: Seq<usize>)
    ensures
        (decode_rec(code, remaining) is Some) <==> (forall|i: int|
            0 <= i < code.len() ==> ((#[trigger] code[i]) as int) < remaining.len() - i),
    decreases code.len(),
{
    if code.len() > 0 {
        if (code.first() as int) < remaining.len() {
            let rest = code.drop_first();
            let rem2 = remaining.remove(code.first() as int);
            lemma_decode_rec_success(rest, rem2);
            assert(rem2.len() == remaining.len() - 1);
            if forall|i: int| 0 <= i < rest.len() ==> ((#[trigger] rest[i]) as int) < rem2.len()
                - i {
                assert forall|i: int|
                    0 <= i < code.len() implies ((#[trigger] code[i]) as int) < remaining.len()
                    - i by {
                    if i > 0 {
                        assert(rest[i - 1] == code[i]);
                    }
                }
            } else {
                let i = choose|i: int|
                    0 <= i < rest.len() && !(((#[trigger] rest[i]) as int) < rem2.len() - i);
                assert(code[i + 1] == rest[i]);
                assert(!((code[i + 1] as int) < remaining.len() - (i + 1)));
            }
        } else {
            assert(!((code[0] as int) < remaining.len() - 0));
        }
    }
}

/// Computes the inversion code of a single permutation.
pub fn permu2marina_one(p: &Vec<usize>) -> (r: Vec<usize>)
    ensures
        r@ == marina_spec(p@),
{
    let n = p.len();
    let mut r: Vec<usize> = Vec::new();
    let mut i: usize = 0;
    while i < n
        invariant
            p@.len() == n,
            i <= n,
            r@.len() == i,
            forall|k: int| 0 <= k < i ==> (#[trigger] r@[k]) == marina_spec(p@)[k],
        decreases n - i,
    {
        let vi = p[i];
        let mut cnt: usize = 0;
        let mut j = i + 1;
        while j < n
            invariant
                p@.len() == n,
                i < n,
                i + 1 <= j <= n,
                vi == p@[i as int],
                cnt as int == count_lt(p@.subrange(i + 1, j as int), vi),
                cnt <= j,
            decreases n - j,
        {
            proof {
                assert(p@.subrange(i + 1, j + 1).drop_last() =~= p@.subrange(i + 1, j as int));
                assert(p@.subrange(i + 1, j + 1).last() == p@[j as int]);
            }
            if p[j] < vi {
                cnt += 1;
            }
            j += 1;
        }
        proof {
            lemma_count_lt_bounds(p@.subrange(i + 1, n as int), vi);
            assert(marina_spec(p@)[i as int] == count_lt(
                p@.subrange(i + 1, n as int),
                p@[i as int],
            ) as usize);
        }
        r.push(cnt);
        i += 1;
    }
    proof {
        assert(r@ =~= marina_spec(p@));
    }
    r
}

/// Joins an already decoded prefix with the outcome of the remaining steps.
spec fn glue(prefix: Seq<usize>, o: Option<Seq<usize>>) -> Option<Seq<usize>> {
    match o {
        Some(rest) => Some(prefix + rest),
        None => None,
    }
}

/// Decodes a single inversion code into a permutation; decoding succeeds
/// exactly when each entry `i` is below `n - i`.
pub fn marina2permu_one(code: &Vec<usize>) -> (r: Result<Vec<usize>, Error>)
    ensures
        match r {
            Ok(p) => decode_spec(code@) == Some(p@),
            Err(e) => e == Error::DecodeError && decode_spec(code@) is None,
        },
        (r is Ok) <==> (forall|i: int|
            0 <= i < code@.len() ==> ((#[trigger] code@[i]) as int) < code@.len() - i),
{
    let n = code.len();
    let mut remaining = crate::perm::identity_vec(n);
    proof {
        lemma_decode_rec_success(code@, remaining@);
    }
    let mut out: Vec<usize> = Vec::new();
    proof {
        assert(code@.subrange(0, n as int) =~= code@);
        match decode_rec(code@, remaining@) {
            Some(rest) => {
                assert(Seq::<usize>::empty() + rest =~= rest);
            },
            None => {},
        }
    }
    let mut i: usize = 0;
    while i < n
        invariant
            code@.len() == n,
            i <= n,
            out@.len() == i,
            remaining@.len() == n - i,
            decode_spec(code@) == glue(out@, decode_rec(code@.subrange(i as int, n as int),
                remaining@)),
        decreases n - i,
    {
        let sub = Ghost(code@.subrange(i as int, n as int));
        proof {
            assert(sub@.first() == code@[i as int]);
        }
        let c = code[i];
        if c >= remaining.len() {
            proof {
                assert(decode_rec(sub@, remaining@) is None);
            }
            return Err(Error::DecodeError);
        }
        let v = remaining[c];
        proof {
            assert(sub@.drop_first() =~= code@.subrange(i + 1, n as int));
            let inner = decode_rec(sub@.drop_first(), remaining@.remove(c as int));
            match inner {
                Some(rest) => {
                    assert(decode_rec(sub@, remaining@) == Some(seq![v] + rest));
                    assert(out@ + (seq![v] + rest) =~= out@.push(v) + rest);
                },
                None => {
                    assert(decode_rec(sub@, remaining@) is None);
                },
            }
        }
        out.push(v);
        remaining.remove(c);
        i += 1;
    }
    proof {
        assert(code@.subrange(n as int, n as int) =~= Seq::<usize>::empty());
        assert(decode_rec(Seq::<usize>::empty(), remaining@) == Some(Seq::<usize>::empty()));
        assert(out@ + Seq::<usize>::empty() =~= out@);
    }
    Ok(out)
}

/// Computes the inversion code of every member of a population, preserving
/// order.
pub fn permu2marina(permus: Vec<Vec<usize>>) -> (r: Vec<Vec<usize>>)
    ensures
        r@.len() == permus@.len(),
        forall|k: int| 0 <= k < permus@.len() ==> (#[trigger] r@[k])@ == marina_spec(
            permus@[k]@,
        ),
{
    let mut r: Vec<Vec<usize>> = Vec::new();
    let mut k: usize = 0;
    while k < permus.len()
        invariant
            r@.len() == k,
            k <= permus@.len(),
            forall|j: int| 0 <= j < k ==> (#[trigger] r@[j])@ == marina_spec(permus@[j]@),
        decreases permus@.len() - k,
    {
        let m = permu2marina_one(&permus[k]);
        r.push(m);
        k += 1;
    }
    r
}

/// Decodes every member of a population of inversion codes, preserving
/// order; the first undecodable member aborts the whole call.
pub fn marina2permu(marinas: Vec<Vec<usize>>) -> (r: Result<Vec<Vec<usize>>, Error>)
    ensures
        match r {
            Ok(out) => {
                &&& out@.len() == marinas@.len()
                &&& forall|k: int| 0 <= k < marinas@.len() ==> decode_spec(
                    (#[trigger] marinas@[k])@,
                ) == Some(out@[k]@)
            },
            Err(e) => {
                &&& e == Error::DecodeError
                &&& exists|k: int| 0 <= k < marinas@.len() && decode_spec(
                    (#[trigger] marinas@[k])@,
                ) is None
            },
        },
{
    let mut out: Vec<Vec<usize>> = Vec::new();
    let mut k: usize = 0;
    while k < marinas.len()
        invariant
            out@.len() == k,
            k <= marinas@.len(),
            forall|j: int| 0 <= j < k ==> decode_spec((#[trigger] marinas@[j])@) == Some(
                out@[j]@,
            ),
        decreases marinas@.len() - k,
    {
        match marina2permu_one(&marinas[k]) {
            Ok(p) => {
                out.push(p);
            },
            Err(e) => {
                return Err(e);
            },
        }
        k += 1;
    }
    Ok(out)
}

} // verus!
