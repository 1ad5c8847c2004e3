//! The quadratic assignment problem: instance loading and fitness
//! evaluation.

use vstd::prelude::*;
use crate::parse::{
    line_at, lines2matrix, matrix_ok, parse_size_line, row_ok, row_val, size_line_ok,
    size_line_val, tokens_of,
};
use crate::perm::identity_seq;
use crate::{all_sols_ok, check_sol, mat_ok, sol_ok, views, Error};

verus! {

/// A quadratic assignment instance: square distance and flow matrices.
#[derive(Debug)]
pub struct Qap {
    pub size: usize,
    pub dist: Vec<Vec<usize>>,
    pub flow: Vec<Vec<usize>>,
}

/// One assignment cost term: distance of a location pair times the flow of
/// the facilities assigned to it.
pub open spec fn qap_term(d: Seq<Seq<usize>>, f: Seq<Seq<usize>>, s: Seq<usize>, i: int, j: int)
    -> int {
    d[i][j] as int * f[s[i] as int][s[j] as int] as int
}

/// The cost terms of location `i` against locations `j` on.
pub open spec fn qap_row_from(
    d: Seq<Seq<usize>>,
    f: Seq<Seq<usize>>,
    s: Seq<usize>,
    i: int,
    j: int,
) -> int
    decreases s.len() - j,
{
    if j >= s.len() {
        0
    } else {
        qap_term(d, f, s, i, j) + qap_row_from(d, f, s, i, j + 1)
    }
}

/// The summed cost of all location pairs with first location at least `i`.
pub open spec fn qap_fit_from(d: Seq<Seq<usize>>, f: Seq<Seq<usize>>, s: Seq<usize>, i: int)
    -> int
    decreases s.len() - i,
{
    if i >= s.len() {
        0
    } else {
        qap_row_from(d, f, s, i, 0) + qap_fit_from(d, f, s, i + 1)
    }
}

/// The fitness of an assignment `s`: distance of each location pair times
/// the flow of the facilities assigned to it, over all pairs.
pub open spec fn qap_fitness(d: Seq<Seq<usize>>, f: Seq<Seq<usize>>, s: Seq<usize>) -> int {
    qap_fit_from(d, f, s, 0)
}

/// The entrywise product sum of distance and flow over columns `j` on of
/// row `i`.
pub open spec fn dot_row_from(d: Seq<Seq<usize>>, f: Seq<Seq<usize>>, n: int, i: int, j: int)
    -> int
    decreases n - j,
{
    if j >= n {
        0
    } else {
        d[i][j] as int * f[i][j] as int + dot_row_from(d, f, n, i, j + 1)
    }
}

/// The entrywise product sum of distance and flow over rows `i` on.
pub open spec fn dot_from(d: Seq<Seq<usize>>, f: Seq<Seq<usize>>, n: int, i: int) -> int
    decreases n - i,
{
    if i >= n {
        0
    } else {
        dot_row_from(d, f, n, i, 0) + dot_from(d, f, n, i + 1)
    }
}

/// The entrywise product sum of the two matrices.
pub open spec fn dot_total(d: Seq<Seq<usize>>, f: Seq<Seq<usize>>, n: int) -> int {
    dot_from(d, f, n, 0)
}

/// Every well-shaped member's fitness fits the machine word.
pub open spec fn qap_fits(d: Seq<Seq<usize>>, f: Seq<Seq<usize>>, sols: Seq<Seq<usize>>) -> bool {
    forall|k: int| 0 <= k < sols.len() && sol_ok(d.len() as int, #[trigger] sols[k]) ==>
        qap_fitness(d, f, sols[k]) <= usize::MAX
}

proof fn lemma_qap_row_nonneg(
    d: Seq<Seq<usize>>,
    f: Seq<Seq<usize>>,
    s: Seq<usize>,
    i: int,
    j: int,
)
    requires
        mat_ok(d, d.len() as int, d.len() as int),
        mat_ok(f, d.len() as int, d.len() as int),
        sol_ok(d.len() as int, s),
        0 <= i < s.len(),
        0 <= j,
    ensures
        qap_row_from(d, f, s, i, j) >= 0,
    decreases s.len() - j,
{
    if j < s.len() {
        lemma_qap_row_nonneg(d, f, s, i, j + 1);
    }
}

proof fn lemma_qap_fit_nonneg(d: Seq<Seq<usize>>, f: Seq<Seq<usize>>, s: Seq<usize>, i: int)
    requires
        mat_ok(d, d.len() as int, d.len() as int),
        mat_ok(f, d.len() as int, d.len() as int),
        sol_ok(d.len() as int, s),
        0 <= i,
    ensures
        qap_fit_from(d, f, s, i) >= 0,
    decreases s.len() - i,
{
    if i < s.len() {
        lemma_qap_row_nonneg(d, f, s, i, 0);
        lemma_qap_fit_nonneg(d, f, s, i + 1);
    }
}

proof fn lemma_qap_identity_row(d: Seq<Seq<usize>>, f: Seq<Seq<usize>>, n: int, i: int, j: int)
    requires
        d.len() == n,
        n <= usize::MAX,
        0 <= i < n,
        0 <= j,
    ensures
        qap_row_from(d, f, identity_seq(n as nat), i, j) == dot_row_from(d, f, n, i, j),
    decreases n - j,
{
    let id = identity_seq(n as nat);
    assert(id.len() == n);
    if j < n {
        assert(id[i] == i as usize);
        assert(id[j] == j as usize);
        lemma_qap_identity_row(d, f, n, i, j + 1);
    }
}

proof fn lemma_qap_identity_from(d: Seq<Seq<usize>>, f: Seq<Seq<usize>>, n: int, i: int)
    requires
        d.len() == n,
        n <= usize::MAX,
        0 <= i,
    ensures
        qap_fit_from(d, f, identity_seq(n as nat), i) == dot_from(d, f, n, i),
    decreases n - i,
{
    if i < n {
        lemma_qap_identity_row(d, f, n, i, 0);
        lemma_qap_identity_from(d, f, n, i + 1);
    }
}

/// On the identity assignment the fitness is the entrywise product sum of
/// the distance and flow matrices.
pub proof fn lemma_qap_identity(d: Seq<Seq<usize>>, f: Seq<Seq<usize>>)
    requires
        d.len() <= usize::MAX,
    ensures
        qap_fitness(d, f, identity_seq(d.len())) == dot_total(d, f, d.len() as int),
{
    lemma_qap_identity_from(d, f, d.len() as int, 0);
}

impl Qap {
    /// Both matrices are square with the declared dimension.
    pub open spec fn wf(&self) -> bool {
        &&& mat_ok(views(self.dist@), self.size as int, self.size as int)
        &&& mat_ok(views(self.flow@), self.size as int, self.size as int)
    }

    /// The distance matrix as a sequence of rows.
    pub open spec fn dist_mat(&self) -> Seq<Seq<usize>> {
        views(self.dist@)
    }

    /// The flow matrix as a sequence of rows.
    pub open spec fn flow_mat(&self) -> Seq<Seq<usize>> {
        views(self.flow@)
    }

    /// Builds an instance from the lines of an instance description: a
    /// dimension line, then the distance rows, then the flow rows.
    pub fn from(lines: &Vec<Vec<u8>>) -> (r: Result<Qap, Error>)
        ensures
            match r {
                Ok(q) => {
                    &&& q.wf()
                    &&& size_line_ok(line_at(lines@, 0))
                    &&& q.size as int == size_line_val(line_at(lines@, 0))
                    &&& matrix_ok(lines@, 1, q.size as int, q.size as int)
                    &&& matrix_ok(lines@, 1 + q.size as int, q.size as int, q.size as int)
                    &&& forall|row: int, c: int|
                        0 <= row < q.size && 0 <= c < q.size ==>
                            (#[trigger] q.dist@[row]@[c]) as int == row_val(
                                line_at(lines@, 1 + row),
                                c,
                            )
                    &&& forall|row: int, c: int|
                        0 <= row < q.size && 0 <= c < q.size ==>
                            (#[trigger] q.flow@[row]@[c]) as int == row_val(
                                line_at(lines@, 1 + q.size as int + row),
                                c,
                            )
                },
                Err(e) => {
                    ||| (e == Error::IOError && !size_line_ok(line_at(lines@, 0)))
                    ||| (e == Error::FileFormatError && size_line_ok(line_at(lines@, 0)) && !(
                    matrix_ok(
                        lines@,
                        1,
                        size_line_val(line_at(lines@, 0)),
                        size_line_val(line_at(lines@, 0)),
                    ) && matrix_ok(
                        lines@,
                        1 + size_line_val(line_at(lines@, 0)),
                        size_line_val(line_at(lines@, 0)),
                        size_line_val(line_at(lines@, 0)),
                    )))
                },
            },
    {
        let empty_line: Vec<u8> = Vec::new();
        let first = if lines.len() > 0 {
            &lines[0]
        } else {
            &empty_line
        };
        proof {
            assert(first@ == line_at(lines@, 0));
        }
        let size = match parse_size_line(first) {
            Some(v) => v,
            None => {
                return Err(Error::IOError);
            },
        };
        if size > (usize::MAX - 1) / 2 {
            proof {
                let sz = size as int;
                assert(tokens_of(Seq::<u8>::empty()).len() == 0);
                if (lines@.len() as int) < 1 + sz {
                    let r0: int = if lines@.len() == 0 {
                        0
                    } else {
                        lines@.len() - 1
                    };
                    assert(line_at(lines@, 1 + r0) =~= Seq::<u8>::empty());
                    assert(!row_ok(line_at(lines@, 1 + r0), sz));
                    assert(!matrix_ok(lines@, 1, sz, sz));
                } else {
                    let rf: int = lines@.len() - sz - 1;
                    assert(2 * sz + 1 > usize::MAX);
                    assert(rf < sz);
                    assert(line_at(lines@, 1 + sz + rf) =~= Seq::<u8>::empty());
                    assert(!row_ok(line_at(lines@, 1 + sz + rf), sz));
                    assert(!matrix_ok(lines@, 1 + sz, sz, sz));
                }
            }
            return Err(Error::FileFormatError);
        }
        let dist = match lines2matrix(lines, 1, size, size) {
            Ok(m) => m,
            Err(e) => {
                return Err(e);
            },
        };
        let flow = match lines2matrix(lines, 1 + size, size, size) {
            Ok(m) => m,
            Err(e) => {
                return Err(e);
            },
        };
        Ok(Qap { size, dist, flow })
    }

    /// The fitness of one well-shaped assignment.
    fn fitness_one(&self, s: &Vec<usize>) -> (r: usize)
        requires
            self.wf(),
            sol_ok(self.size as int, s@),
            qap_fitness(self.dist_mat(), self.flow_mat(), s@) <= usize::MAX,
        ensures
            r as int == qap_fitness(self.dist_mat(), self.flow_mat(), s@),
    {
        let ghost d = self.dist_mat();
        let ghost f = self.flow_mat();
        let n = self.size;
        let mut acc: usize = 0;
        let mut i: usize = 0;
        while i < n
            invariant
                self.wf(),
                sol_ok(n as int, s@),
                n == self.size,
                d == self.dist_mat(),
                f == self.flow_mat(),
                qap_fitness(d, f, s@) <= usize::MAX,
                i <= n,
                acc as int == qap_fitness(d, f, s@) - qap_fit_from(d, f, s@, i as int),
            decreases n - i,
        {
            let si = s[i];
            let mut j: usize = 0;
            proof {
                assert(qap_fit_from(d, f, s@, i as int) == qap_row_from(d, f, s@, i as int, 0)
                    + qap_fit_from(d, f, s@, i + 1));
            }
            while j < n
                invariant
                    self.wf(),
                    sol_ok(n as int, s@),
                    n == self.size,
                    d == self.dist_mat(),
                    f == self.flow_mat(),
                    qap_fitness(d, f, s@) <= usize::MAX,
                    i < n,
                    si == s@[i as int],
                    j <= n,
                    acc as int == qap_fitness(d, f, s@) - qap_row_from(
                        d,
                        f,
                        s@,
                        i as int,
                        j as int,
                    ) - qap_fit_from(d, f, s@, i + 1),
                decreases n - j,
            {
                let sj = s[j];
                proof {
                    assert(d[i as int] == self.dist@[i as int]@);
                    assert(f[si as int] == self.flow@[si as int]@);
                    assert(qap_row_from(d, f, s@, i as int, j as int) == qap_term(
                        d,
                        f,
                        s@,
                        i as int,
                        j as int,
                    ) + qap_row_from(d, f, s@, i as int, j + 1));
                    lemma_qap_row_nonneg(d, f, s@, i as int, j + 1);
                    lemma_qap_fit_nonneg(d, f, s@, i + 1);
                }
                let dij = self.dist[i][j];
                let fij = self.flow[si][sj];
                proof {
                    assert(dij as int * fij as int == qap_term(d, f, s@, i as int, j as int));
                }
                let term = dij * fij;
                acc = acc + term;
                j += 1;
            }
            proof {
                assert(qap_row_from(d, f, s@, i as int, n as int) == 0);
            }
            i += 1;
        }
        proof {
            assert(qap_fit_from(d, f, s@, n as int) == 0);
        }
        acc
    }

    /// Evaluates every member of a population against the instance; any
    /// wrongly shaped member fails the whole call.
    pub fn evaluate(&self, solutions: Vec<Vec<usize>>) -> (r: Result<Vec<usize>, Error>)
        requires
            self.wf(),
            qap_fits(self.dist_mat(), self.flow_mat(), views(solutions@)),
        ensures
            match r {
                Ok(v) => {
                    &&& all_sols_ok(self.size as int, views(solutions@))
                    &&& v@.len() == solutions@.len()
                    &&& forall|k: int|
                        0 <= k < solutions@.len() ==> (#[trigger] v@[k]) as int == qap_fitness(
                            self.dist_mat(),
                            self.flow_mat(),
                            solutions@[k]@,
                        )
                },
                Err(e) => {
                    &&& e == Error::ShapeMismatchError
                    &&& !all_sols_ok(self.size as int, views(solutions@))
                },
            },
    {
        let mut v: Vec<usize> = Vec::new();
        let mut k: usize = 0;
        while k < solutions.len()
            invariant
                self.wf(),
                qap_fits(self.dist_mat(), self.flow_mat(), views(solutions@)),
                v@.len() == k,
                k <= solutions@.len(),
                forall|j: int| 0 <= j < k ==> sol_ok(self.size as int, views(solutions@)[j]),
                forall|j: int| 0 <= j < k ==> (#[trigger] v@[j]) as int == qap_fitness(
                    self.dist_mat(),
                    self.flow_mat(),
                    solutions@[j]@,
                ),
            decreases solutions@.len() - k,
        {
            if !check_sol(self.size, &solutions[k]) {
                proof {
                    assert(views(solutions@)[k as int] == solutions@[k as int]@);
                    assert(!sol_ok(self.size as int, views(solutions@)[k as int]));
                }
                return Err(Error::ShapeMismatchError);
            }
            proof {
                assert(views(solutions@)[k as int] == solutions@[k as int]@);
                assert(self.dist_mat().len() == self.size as int);
            }
            let fv = self.fitness_one(&solutions[k]);
            v.push(fv);
            k += 1;
        }
        proof {
            assert forall|j: int| 0 <= j < solutions@.len() implies sol_ok(
                self.size as int,
                #[trigger] views(solutions@)[j],
            ) by {}
        }
        Ok(v)
    }
}

} // verus!
