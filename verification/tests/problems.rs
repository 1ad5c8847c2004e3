use permu::lop::Lop;
use permu::pfsp::Pfsp;
use permu::qap::Qap;
use permu::Error;

fn lines(strs: &[&str]) -> Vec<Vec<u8>> {
    strs.iter().map(|s| s.as_bytes().to_vec()).collect()
}

#[test]
fn lop_concrete_pair_costs() {
    let inst = Lop::load(&lines(&["2", "0 1", "0 0"])).unwrap();
    assert_eq!(inst.evaluate(vec![vec![0, 1]]).unwrap(), vec![1]);
    assert_eq!(inst.evaluate(vec![vec![1, 0]]).unwrap(), vec![0]);
}

#[test]
fn lop_zero_matrix_gives_zero_fitness() {
    let inst = Lop::load(&lines(&["3", "0 0 0", "0 0 0", "0 0 0"])).unwrap();
    let all = vec![
        vec![0, 1, 2],
        vec![0, 2, 1],
        vec![1, 0, 2],
        vec![1, 2, 0],
        vec![2, 0, 1],
        vec![2, 1, 0],
    ];
    assert_eq!(inst.evaluate(all).unwrap(), vec![0, 0, 0, 0, 0, 0]);
}

#[test]
fn lop_larger_instance() {
    let inst = Lop::load(&lines(&["3", "0 5 1", "2 0 3", "4 6 0"])).unwrap();
    // [0,1,2]: m[0][1] + m[0][2] + m[1][2] = 5 + 1 + 3
    // [2,1,0]: m[2][1] + m[2][0] + m[1][0] = 6 + 4 + 2
    assert_eq!(
        inst.evaluate(vec![vec![0, 1, 2], vec![2, 1, 0]]).unwrap(),
        vec![9, 12]
    );
}

#[test]
fn lop_load_rejects_bad_dimension() {
    assert_eq!(Lop::load(&lines(&["x", "0 1", "0 0"])).unwrap_err(), Error::IOError);
    assert_eq!(Lop::load(&lines(&["", "0 1"])).unwrap_err(), Error::IOError);
    assert_eq!(Lop::load(&lines(&["2 2", "0 1", "0 0"])).unwrap_err(), Error::IOError);
}

#[test]
fn lop_load_rejects_bad_rows() {
    assert_eq!(
        Lop::load(&lines(&["2", "0 1 2", "0 0"])).unwrap_err(),
        Error::FileFormatError
    );
    assert_eq!(Lop::load(&lines(&["2", "0 1"])).unwrap_err(), Error::FileFormatError);
    assert_eq!(
        Lop::load(&lines(&["2", "0 y", "0 0"])).unwrap_err(),
        Error::FileFormatError
    );
}

#[test]
fn lop_evaluate_rejects_wrong_shapes() {
    let inst = Lop::load(&lines(&["2", "0 1", "0 0"])).unwrap();
    assert_eq!(
        inst.evaluate(vec![vec![0, 1, 2]]).unwrap_err(),
        Error::ShapeMismatchError
    );
    assert_eq!(
        inst.evaluate(vec![vec![0, 1], vec![0, 7]]).unwrap_err(),
        Error::ShapeMismatchError
    );
}

#[test]
fn lop_batches_match_elementwise_evaluate() {
    let inst = Lop::load(&lines(&["3", "0 5 1", "2 0 3", "4 6 0"])).unwrap();
    let batches = vec![
        vec![vec![0, 1, 2], vec![2, 1, 0]],
        vec![vec![1, 0, 2]],
        vec![],
    ];
    let par = inst.evaluate_par(batches.clone()).unwrap();
    assert_eq!(par.len(), batches.len());
    for (k, batch) in batches.into_iter().enumerate() {
        assert_eq!(par[k], inst.evaluate(batch).unwrap());
    }
}

#[test]
fn pfsp_single_machine_total_completion_time() {
    let inst = Pfsp::load(&lines(&["header", "3 1", "ignored", "5 7 9"])).unwrap();
    // order [2,0,1]: completion times 9, 14, 21; total flow time 44
    assert_eq!(inst.evaluate(vec![vec![2, 0, 1]]).unwrap(), vec![44]);
    // order [0,1,2]: completion times 5, 12, 21; total flow time 38
    assert_eq!(inst.evaluate(vec![vec![0, 1, 2]]).unwrap(), vec![38]);
}

#[test]
fn pfsp_two_machines_concrete() {
    let inst = Pfsp::load(&lines(&["x", "2 2", "x", "1 2", "3 4"])).unwrap();
    // order [0,1]: machine completions c(0,1) = 4, c(1,1) = max(4,3) + 4 = 8
    assert_eq!(inst.evaluate(vec![vec![0, 1]]).unwrap(), vec![12]);
}

#[test]
fn pfsp_load_rejects_bad_sizes() {
    assert_eq!(Pfsp::load(&lines(&["x", "3", "x", "5 7 9"])).unwrap_err(), Error::IOError);
    assert_eq!(Pfsp::load(&lines(&["x", "a b", "x"])).unwrap_err(), Error::IOError);
    assert_eq!(Pfsp::load(&lines(&[])).unwrap_err(), Error::IOError);
}

#[test]
fn pfsp_load_rejects_bad_rows() {
    assert_eq!(
        Pfsp::load(&lines(&["x", "3 1", "x", "5 7"])).unwrap_err(),
        Error::FileFormatError
    );
    assert_eq!(
        Pfsp::load(&lines(&["x", "3 2", "x", "5 7 9"])).unwrap_err(),
        Error::FileFormatError
    );
}

#[test]
fn pfsp_batches_match_elementwise_evaluate() {
    let inst = Pfsp::load(&lines(&["x", "3 2", "x", "5 7 9", "1 2 3"])).unwrap();
    let batches = vec![
        vec![vec![0, 1, 2], vec![2, 1, 0]],
        vec![vec![1, 2, 0]],
    ];
    let par = inst.evaluate_batch(batches.clone()).unwrap();
    for (k, batch) in batches.into_iter().enumerate() {
        assert_eq!(par[k], inst.evaluate(batch).unwrap());
    }
}

#[test]
fn qap_identity_is_entrywise_product_sum() {
    let inst = Qap::from(&lines(&["2", "0 1", "2 0", "0 2", "3 0"])).unwrap();
    // identity: sum of D[i][j] * F[i][j] = 1*2 + 2*3 = 8
    assert_eq!(inst.evaluate(vec![vec![0, 1]]).unwrap(), vec![8]);
    // swapped: D[0][1]*F[1][0] + D[1][0]*F[0][1] = 1*3 + 2*2 = 7
    assert_eq!(inst.evaluate(vec![vec![1, 0]]).unwrap(), vec![7]);
}

#[test]
fn qap_load_rejects_bad_input() {
    assert_eq!(Qap::from(&lines(&["q"])).unwrap_err(), Error::IOError);
    assert_eq!(
        Qap::from(&lines(&["2", "0 1", "2 0", "0 2"])).unwrap_err(),
        Error::FileFormatError
    );
}

#[test]
fn qap_evaluate_rejects_wrong_shapes() {
    let inst = Qap::from(&lines(&["2", "0 1", "2 0", "0 2", "3 0"])).unwrap();
    assert_eq!(inst.evaluate(vec![vec![0]]).unwrap_err(), Error::ShapeMismatchError);
}

#[test]
fn loaders_tolerate_extra_whitespace() {
    let inst = Lop::load(&lines(&["  2  ", " 0\t1 ", "0 0"])).unwrap();
    assert_eq!(inst.evaluate(vec![vec![0, 1]]).unwrap(), vec![1]);
}
