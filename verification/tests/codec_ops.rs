use permu::codec::{marina2permu, marina2permu_one, permu2marina, permu2marina_one};
use permu::perm::{inverse_one, permu2inverse};
use permu::Error;

fn gen_perms(n: usize, cur: &mut Vec<usize>, used: &mut Vec<bool>, out: &mut Vec<Vec<usize>>) {
    if cur.len() == n {
        out.push(cur.clone());
        return;
    }
    for v in 0..n {
        if !used[v] {
            used[v] = true;
            cur.push(v);
            gen_perms(n, cur, used, out);
            cur.pop();
            used[v] = false;
        }
    }
}

fn perms_of(n: usize) -> Vec<Vec<usize>> {
    let mut out = Vec::new();
    let mut cur = Vec::new();
    let mut used = vec![false; n];
    gen_perms(n, &mut cur, &mut used, &mut out);
    out
}

#[test]
fn decode_encode_roundtrip_all_small() {
    for n in 1..=8 {
        for p in perms_of(n) {
            let code = permu2marina_one(&p);
            let back = marina2permu_one(&code).unwrap();
            assert_eq!(back, p);
        }
    }
}

#[test]
fn inverse_involution_all_small() {
    for n in 1..=8 {
        for p in perms_of(n) {
            let inv = inverse_one(&p);
            let back = inverse_one(&inv);
            assert_eq!(back, p);
        }
    }
}

#[test]
fn encode_concrete() {
    assert_eq!(permu2marina_one(&vec![2, 0, 1]), vec![2, 0, 0]);
}

#[test]
fn decode_concrete() {
    assert_eq!(marina2permu_one(&vec![2, 0, 0]).unwrap(), vec![2, 0, 1]);
}

#[test]
fn encode_decode_batches() {
    let pop = vec![vec![0, 1, 2], vec![2, 1, 0], vec![1, 2, 0]];
    let codes = permu2marina(pop.clone());
    assert_eq!(codes.len(), 3);
    let back = marina2permu(codes).unwrap();
    assert_eq!(back, pop);
}

#[test]
fn decode_rejects_out_of_range_entry() {
    let r = marina2permu(vec![vec![3, 0, 0]]);
    assert_eq!(r.unwrap_err(), Error::DecodeError);
    let r2 = marina2permu_one(&vec![0, 2, 0]);
    assert_eq!(r2.unwrap_err(), Error::DecodeError);
}

#[test]
fn decode_accepts_largest_valid_entries() {
    // entry i may be as large as n - 1 - i: this decodes to the reversal
    let r = marina2permu_one(&vec![3, 2, 1, 0]).unwrap();
    assert_eq!(r, vec![3, 2, 1, 0]);
}

#[test]
fn inverse_batch_concrete() {
    let inv = permu2inverse(vec![vec![1, 2, 0], vec![0, 1, 2]]);
    assert_eq!(inv, vec![vec![2, 0, 1], vec![0, 1, 2]]);
}

#[test]
fn empty_permutation_roundtrip() {
    let code = permu2marina_one(&Vec::new());
    assert_eq!(code, Vec::<usize>::new());
    assert_eq!(marina2permu_one(&code).unwrap(), Vec::<usize>::new());
}
