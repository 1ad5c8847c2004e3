//! The linear ordering problem: instance loading and fitness evaluation.

use vstd::prelude::*;
use crate::parse::{
    line_at, lines2matrix, matrix_ok, parse_size_line, row_val, size_line_ok, size_line_val,
    tokens_of,
};
use crate::{all_sols_ok, check_sol, mat_ok, sol_ok, views, Error};

verus! {

/// A linear ordering instance: a square precedence-cost matrix.
#[derive(Debug)]
pub struct Lop {
    pub size: usize,
    pub matrix: Vec<Vec<usize>>,
}

/// The cost of the ordered pair at sequence positions `i < j`.
pub open spec fn lop_pair(m: Seq<Seq<usize>>, s: Seq<usize>, i: int, j: int) -> int {
    m[s[i] as int][s[j] as int] as int
}

/// The cost of pairing position `i` with every later position from `j` on.
pub open spec fn lop_row_from(m: Seq<Seq<usize>>, s: Seq<usize>, i: int, j: int) -> int
    decreases s.len() - j,
{
    if j >= s.len() {
        0
    } else {
        lop_pair(m, s, i, j) + lop_row_from(m, s, i, j + 1)
    }
}

/// The summed cost of all ordered pairs with earlier position at least `i`.
pub open spec fn lop_fit_from(m: Seq<Seq<usize>>, s: Seq<usize>, i: int) -> int
    decreases s.len() - i,
{
    if i >= s.len() {
        0
    } else {
        lop_row_from(m, s, i, i + 1) + lop_fit_from(m, s, i + 1)
    }
}

/// The fitness of a solution: the cost of every pair whose first item stands
/// earlier in the sequence, summed over the precedence-cost matrix.
pub open spec fn lop_fitness(m: Seq<Seq<usize>>, s: Seq<usize>) -> int {
    lop_fit_from(m, s, 0)
}

/// The fitness of every member of a population, in order.
pub open spec fn lop_results(m: Seq<Seq<usize>>, sols: Seq<Seq<usize>>) -> Seq<int> {
    Seq::new(sols.len(), |k: int| lop_fitness(m, sols[k]))
}

/// Every well-shaped member's fitness fits the machine word.
pub open spec fn lop_fits(m: Seq<Seq<usize>>, sols: Seq<Seq<usize>>) -> bool {
    forall|k: int| 0 <= k < sols.len() && sol_ok(m.len() as int, #[trigger] sols[k]) ==>
        lop_fitness(m, sols[k]) <= usize::MAX
}

proof fn lemma_lop_row_nonneg(m: Seq<Seq<usize>>, s: Seq<usize>, i: int, j: int)
    requires
        mat_ok(m, m.len() as int, m.len() as int),
        sol_ok(m.len() as int, s),
        0 <= i < s.len(),
        0 <= j,
    ensures
        lop_row_from(m, s, i, j) >= 0,
    decreases s.len() - j,
{
    if j < s.len() {
        lemma_lop_row_nonneg(m, s, i, j + 1);
    }
}

proof fn lemma_lop_fit_nonneg(m: Seq<Seq<usize>>, s: Seq<usize>, i: int)
    requires
        mat_ok(m, m.len() as int, m.len() as int),
        sol_ok(m.len() as int, s),
        0 <= i,
    ensures
        lop_fit_from(m, s, i) >= 0,
    decreases s.len() - i,
{
    if i < s.len() {
        lemma_lop_row_nonneg(m, s, i, i + 1);
        lemma_lop_fit_nonneg(m, s, i + 1);
    }
}

/// A matrix of zero costs gives every solution fitness zero.
pub proof fn lemma_lop_zero_matrix(m: Seq<Seq<usize>>, s: Seq<usize>, i: int)
    requires
        forall|r: int, c: int| 0 <= r < m.len() && 0 <= c < m[r].len() ==>
            (#[trigger] m[r][c]) == 0,
        mat_ok(m, m.len() as int, m.len() as int),
        sol_ok(m.len() as int, s),
        0 <= i,
    ensures
        lop_fit_from(m, s, i) == 0,
        i == 0 ==> lop_fitness(m, s) == 0,
    decreases s.len() - i,
{
    if i < s.len() {
        assert(lop_row_from(m, s, i, i + 1) == 0) by {
            lemma_lop_zero_row(m, s, i, i + 1);
        }
        lemma_lop_zero_matrix(m, s, i + 1);
    }
}

proof fn lemma_lop_zero_row(m: Seq<Seq<usize>>, s: Seq<usize>, i: int, j: int)
    requires
        forall|r: int, c: int| 0 <= r < m.len() && 0 <= c < m[r].len() ==>
            (#[trigger] m[r][c]) == 0,
        mat_ok(m, m.len() as int, m.len() as int),
        sol_ok(m.len() as int, s),
        0 <= i < s.len(),
        0 <= j,
    ensures
        lop_row_from(m, s, i, j) == 0,
    decreases s.len() - j,
{
    if j < s.len() {
        lemma_lop_zero_row(m, s, i, j + 1);
    }
}

/// Batched evaluation is element-wise evaluation: each batch's results are
/// the per-solution fitness values of that batch alone, independent of the
/// other batches.
pub proof fn lemma_evaluate_batches_elementwise(
    m: Seq<Seq<usize>>,
    batches: Seq<Seq<Seq<usize>>>,
)
    ensures
        forall|b: int, k: int|
            0 <= b < batches.len() && 0 <= k < (#[trigger] batches[b]).len() ==>
                #[trigger] lop_results(m, batches[b])[k] == lop_fitness(m, batches[b][k]),
{
}

impl Lop {
    /// The matrix is square with the declared dimension.
    pub open spec fn wf(&self) -> bool {
        mat_ok(views(self.matrix@), self.size as int, self.size as int)
    }

    /// The instance matrix as a sequence of rows.
    pub open spec fn mat(&self) -> Seq<Seq<usize>> {
        views(self.matrix@)
    }

    /// Builds an instance from the lines of an instance description: a
    /// dimension line, then that many rows of that many entries.
    pub fn load(lines: &Vec<Vec<u8>>) -> (r: Result<Lop, Error>)
        ensures
            match r {
                Ok(l) => {
                    &&& l.wf()
                    &&& size_line_ok(line_at(lines@, 0))
                    &&& l.size as int == size_line_val(line_at(lines@, 0))
                    &&& matrix_ok(lines@, 1, l.size as int, l.size as int)
                    &&& forall|row: int, c: int|
                        0 <= row < l.size && 0 <= c < l.size ==>
                            (#[trigger] l.matrix@[row]@[c]) as int == row_val(
                                line_at(lines@, 1 + row),
                                c,
                            )
                },
                Err(e) => {
                    ||| (e == Error::IOError && !size_line_ok(line_at(lines@, 0)))
                    ||| (e == Error::FileFormatError && size_line_ok(line_at(lines@, 0))
                        && !matrix_ok(
                        lines@,
                        1,
                        size_line_val(line_at(lines@, 0)),
                        size_line_val(line_at(lines@, 0)),
                    ))
                },
            },
    {
        let empty_line: Vec<u8> = Vec::new();
        let first = if lines.len() > 0 {
            &lines[0]
        } else {
            &empty_line
        };
        proof {
            assert(first@ == line_at(lines@, 0));
        }
        let size = match parse_size_line(first) {
            Some(v) => v,
            None => {
                return Err(Error::IOError);
            },
        };
        if size == usize::MAX {
            proof {
                let r0: int = if lines@.len() == 0 {
                    0
                } else {
                    lines@.len() - 1
                };
                assert(line_at(lines@, 1 + r0) =~= Seq::<u8>::empty());
                assert(tokens_of(Seq::<u8>::empty()).len() == 0);
                assert(!crate::parse::row_ok(line_at(lines@, 1 + r0), size as int));
            }
            return Err(Error::FileFormatError);
        }
        let matrix = match lines2matrix(lines, 1, size, size) {
            Ok(m) => m,
            Err(e) => {
                return Err(e);
            },
        };
        Ok(Lop { size, matrix })
    }

    /// The fitness of one well-shaped solution.
    fn fitness_one(&self, s: &Vec<usize>) -> (r: usize)
        requires
            self.wf(),
            sol_ok(self.size as int, s@),
            lop_fitness(self.mat(), s@) <= usize::MAX,
        ensures
            r as int == lop_fitness(self.mat(), s@),
    {
        let ghost m = self.mat();
        let n = self.size;
        let mut acc: usize = 0;
        let mut i: usize = 0;
        while i < n
            invariant
                self.wf(),
                sol_ok(n as int, s@),
                n == self.size,
                m == self.mat(),
                lop_fitness(m, s@) <= usize::MAX,
                i <= n,
                acc as int == lop_fitness(m, s@) - lop_fit_from(m, s@, i as int),
            decreases n - i,
        {
            let si = s[i];
            let mut j = i + 1;
            proof {
                assert(lop_fit_from(m, s@, i as int) == lop_row_from(m, s@, i as int, i + 1)
                    + lop_fit_from(m, s@, i + 1));
            }
            while j < n
                invariant
                    self.wf(),
                    sol_ok(n as int, s@),
                    n == self.size,
                    m == self.mat(),
                    lop_fitness(m, s@) <= usize::MAX,
                    i < n,
                    si == s@[i as int],
                    i + 1 <= j <= n,
                    acc as int == lop_fitness(m, s@) - lop_row_from(m, s@, i as int, j as int)
                        - lop_fit_from(m, s@, i + 1),
                decreases n - j,
            {
                let sj = s[j];
                proof {
                    assert(m[si as int] == self.matrix@[si as int]@);
                    assert(lop_row_from(m, s@, i as int, j as int) == lop_pair(
                        m,
                        s@,
                        i as int,
                        j as int,
                    ) + lop_row_from(m, s@, i as int, j + 1));
                    lemma_lop_row_nonneg(m, s@, i as int, j + 1);
                    lemma_lop_fit_nonneg(m, s@, i + 1);
                }
                let term = self.matrix[si][sj];
                proof {
                    assert(term as int == lop_pair(m, s@, i as int, j as int));
                }
                acc = acc + term;
                j += 1;
            }
            proof {
                assert(lop_row_from(m, s@, i as int, n as int) == 0);
            }
            i += 1;
        }
        proof {
            assert(lop_fit_from(m, s@, n as int) == 0);
        }
        acc
    }

    /// Evaluates every member of a population against the instance; any
    /// wrongly shaped member fails the whole call.
    pub fn evaluate(&self, solutions: Vec<Vec<usize>>) -> (r: Result<Vec<usize>, Error>)
        requires
            self.wf(),
            lop_fits(self.mat(), views(solutions@)),
        ensures
            match r {
                Ok(v) => {
                    &&& all_sols_ok(self.size as int, views(solutions@))
                    &&& v@.len() == solutions@.len()
                    &&& forall|k: int|
                        0 <= k < solutions@.len() ==> (#[trigger] v@[k]) as int == lop_fitness(
                            self.mat(),
                            solutions@[k]@,
                        )
                },
                Err(e) => {
                    &&& e == Error::ShapeMismatchError
                    &&& !all_sols_ok(self.size as int, views(solutions@))
                },
            },
    {
        let mut v: Vec<usize> = Vec::new();
        let mut k: usize = 0;
        while k < solutions.len()
            invariant
                self.wf(),
                lop_fits(self.mat(), views(solutions@)),
                v@.len() == k,
                k <= solutions@.len(),
                forall|j: int| 0 <= j < k ==> sol_ok(self.size as int, views(solutions@)[j]),
                forall|j: int| 0 <= j < k ==> (#[trigger] v@[j]) as int == lop_fitness(
                    self.mat(),
                    solutions@[j]@,
                ),
            decreases solutions@.len() - k,
        {
            if !check_sol(self.size, &solutions[k]) {
                proof {
                    assert(views(solutions@)[k as int] == solutions@[k as int]@);
                    assert(!sol_ok(self.size as int, views(solutions@)[k as int]));
                }
                return Err(Error::ShapeMismatchError);
            }
            proof {
                assert(views(solutions@)[k as int] == solutions@[k as int]@);
                assert(self.mat().len() == self.size as int);
            }
            let f = self.fitness_one(&solutions[k]);
            v.push(f);
            k += 1;
        }
        proof {
            assert forall|j: int| 0 <= j < solutions@.len() implies sol_ok(
                self.size as int,
                #[trigger] views(solutions@)[j],
            ) by {}
        }
        Ok(v)
    }

    /// Evaluates many independent batches, each through `evaluate`, the
    /// batches handled independently of one another.
    ///
    /// Relies on rayon's `into_par_iter`, `map` and `collect` into `Result`:
    /// the output preserves batch order, and any batch's error aborts the
    /// whole call with that error.
    #[verifier::external_body]
    fn par_evaluate(&self, batches: Vec<Vec<Vec<usize>>>) -> (r: Result<Vec<Vec<usize>>, Error>)
        requires
            self.wf(),
            forall|b: int| 0 <= b < batches@.len() ==> lop_fits(
                self.mat(),
                views((#[trigger] batches@[b])@),
            ),
        ensures
            match r {
                Ok(rs) => {
                    &&& rs@.len() == batches@.len()
                    &&& forall|b: int| 0 <= b < batches@.len() ==> all_sols_ok(
                        self.size as int,
                        views((#[trigger] batches@[b])@),
                    )
                    &&& forall|b: int| 0 <= b < batches@.len() ==> (#[trigger] rs@[b])@.len()
                        == batches@[b]@.len()
                    &&& forall|b: int, k: int|
                        0 <= b < batches@.len() && 0 <= k < (#[trigger] batches@[b])@.len() ==>
                            (#[trigger] rs@[b]@[k]) as int == lop_fitness(
                                self.mat(),
                                batches@[b]@[k]@,
                            )
                },
                Err(e) => {
                    &&& e == Error::ShapeMismatchError
                    &&& exists|b: int| 0 <= b < batches@.len() && !all_sols_ok(
                        self.size as int,
                        views((#[trigger] batches@[b])@),
                    )
                },
            },
    {
        rayon::iter::ParallelIterator::collect(rayon::iter::ParallelIterator::map(
            rayon::iter::IntoParallelIterator::into_par_iter(batches),
            |batch| self.evaluate(batch),
        ))
    }

    /// Evaluates many independent batches of solutions; batch `k` of the
    /// result is `evaluate` of input batch `k`.
    pub fn evaluate_par(&self, solutions: Vec<Vec<Vec<usize>>>) -> (r: Result<
        Vec<Vec<usize>>,
        Error,
    >)
        requires
            self.wf(),
            forall|b: int| 0 <= b < solutions@.len() ==> lop_fits(
                self.mat(),
                views((#[trigger] solutions@[b])@),
            ),
        ensures
            match r {
                Ok(rs) => {
                    &&& rs@.len() == solutions@.len()
                    &&& forall|b: int| 0 <= b < solutions@.len() ==> all_sols_ok(
                        self.size as int,
                        views((#[trigger] solutions@[b])@),
                    )
                    &&& forall|b: int| 0 <= b < solutions@.len() ==> (#[trigger] rs@[b])@.len()
                        == solutions@[b]@.len()
                    &&& forall|b: int, k: int|
                        0 <= b < solutions@.len() && 0 <= k < (#[trigger] solutions@[b])@.len()
                            ==> (#[trigger] rs@[b]@[k]) as int == lop_fitness(
                            self.mat(),
                            solutions@[b]@[k]@,
                        )
                },
                Err(e) => {
                    &&& e == Error::ShapeMismatchError
                    &&& exists|b: int| 0 <= b < solutions@.len() && !all_sols_ok(
                        self.size as int,
                        views((#[trigger] solutions@[b])@),
                    )
                },
            },
    {
        self.par_evaluate(solutions)
    }
}

} // verus!
