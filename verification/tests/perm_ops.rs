use permu::perm::{compose, compose_par, identity_vec, inverse_one, is_permutation};
use permu::Error;

fn gen_perms(n: usize, cur: &mut Vec<usize>, used: &mut Vec<bool>, out: &mut Vec<Vec<usize>>) {
    if cur.len() == n {
        out.push(cur.clone());
        return;
    }
    for v in 0..n {
        if !used[v] {
            used[v] = true;
            cur.push(v);
            gen_perms(n, cur, used, out);
            cur.pop();
            used[v] = false;
        }
    }
}

fn perms_of(n: usize) -> Vec<Vec<usize>> {
    let mut out = Vec::new();
    let mut cur = Vec::new();
    let mut used = vec![false; n];
    gen_perms(n, &mut cur, &mut used, &mut out);
    out
}

#[test]
fn compose_identity_is_right_neutral() {
    for n in 1..=6 {
        let e = identity_vec(n);
        for p in perms_of(n) {
            let r = compose(p.clone(), vec![e.clone()]).unwrap();
            assert_eq!(r, vec![p]);
        }
    }
}

#[test]
fn compose_identity_left_gives_inverse() {
    for n in 1..=6 {
        let e = identity_vec(n);
        for p in perms_of(n) {
            let r = compose(e.clone(), vec![p.clone()]).unwrap();
            assert_eq!(r, vec![inverse_one(&p)]);
        }
    }
}

#[test]
fn compose_identity_left_neutral_on_involutions() {
    for n in 1..=6 {
        let e = identity_vec(n);
        for p in perms_of(n) {
            if inverse_one(&p) == p {
                let r = compose(e.clone(), vec![p.clone()]).unwrap();
                assert_eq!(r, vec![p]);
            }
        }
    }
}

#[test]
fn compose_concrete() {
    // result[b[i]] = a[i]
    let r = compose(vec![2, 0, 1], vec![vec![1, 2, 0]]).unwrap();
    assert_eq!(r, vec![vec![1, 2, 0]]);
}

#[test]
fn compose_rejects_length_mismatch() {
    let r = compose(vec![0, 1], vec![vec![0, 1, 2]]);
    assert_eq!(r.unwrap_err(), Error::ShapeMismatchError);
}

#[test]
fn compose_par_matches_sequential_compose() {
    let vecs = vec![vec![1, 0, 2], vec![2, 1, 0]];
    let pops = vec![
        vec![vec![0, 1, 2], vec![2, 0, 1]],
        vec![vec![1, 2, 0]],
    ];
    let par = compose_par(vecs.clone(), pops.clone()).unwrap();
    for (k, (v, pop)) in vecs.into_iter().zip(pops.into_iter()).enumerate() {
        let seq = compose(v, pop).unwrap();
        assert_eq!(par[k], seq);
    }
}

#[test]
fn compose_par_surfaces_mismatch() {
    let r = compose_par(vec![vec![0, 1]], vec![vec![vec![0, 1, 2]]]);
    assert_eq!(r.unwrap_err(), Error::ShapeMismatchError);
}

#[test]
fn is_permutation_checks() {
    assert!(is_permutation(&vec![2, 0, 1]));
    assert!(is_permutation(&Vec::new()));
    assert!(!is_permutation(&vec![0, 0, 1]));
    assert!(!is_permutation(&vec![0, 3, 1]));
}
