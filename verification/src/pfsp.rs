//! The permutation flow-shop scheduling problem: instance loading and total
//! flow time evaluation.

use vstd::prelude::*;
use crate::parse::{
    dec_value, is_dec, line_at, lines2matrix, matrix_ok, parse_usize, row_val, tokenize,
    tokens_of,
};
use crate::{all_sols_ok, check_sol, mat_ok, sol_ok, views, Error};

verus! {

/// A flow-shop instance: a processing-time matrix of machines by jobs.
#[derive(Debug)]
pub struct Pfsp {
    pub size: usize,
    pub n_machines: usize,
    pub matrix: Vec<Vec<usize>>,
}

/// The larger of two values.
pub open spec fn max2(a: int, b: int) -> int {
    if a >= b {
        a
    } else {
        b
    }
}

/// Completion time of the job at sequence position `i` on machine `k`: a
/// job passes machines in order, and a machine serves jobs in sequence
/// order.
pub open spec fn pfsp_c(m: Seq<Seq<usize>>, s: Seq<usize>, i: int, k: int) -> int
    decreases i + k when i >= 0 && k >= 0
{
    if i == 0 && k == 0 {
        m[0][s[0] as int] as int
    } else if i == 0 {
        pfsp_c(m, s, 0, k - 1) + m[k][s[0] as int] as int
    } else if k == 0 {
        pfsp_c(m, s, i - 1, 0) + m[0][s[i] as int] as int
    } else {
        max2(pfsp_c(m, s, i - 1, k), pfsp_c(m, s, i, k - 1)) + m[k][s[i] as int] as int
    }
}

/// Sum of the completion times on machine `mach` of the jobs at positions
/// `i` on.
pub open spec fn pfsp_tft_from(m: Seq<Seq<usize>>, s: Seq<usize>, mach: int, i: int) -> int
    decreases s.len() - i,
{
    if i >= s.len() {
        0
    } else {
        pfsp_c(m, s, i, mach) + pfsp_tft_from(m, s, mach, i + 1)
    }
}

/// The fitness of a job order: the total flow time, the sum over all
/// sequence positions of that job's completion time on the last machine.
pub open spec fn pfsp_fitness(m: Seq<Seq<usize>>, s: Seq<usize>, n_machines: int) -> int {
    if n_machines <= 0 {
        0
    } else {
        pfsp_tft_from(m, s, n_machines - 1, 0)
    }
}

/// Sum of the processing times of the jobs at positions up to `i`, in
/// sequence order, on the first machine.
pub open spec fn job_prefix_sum(m: Seq<Seq<usize>>, s: Seq<usize>, i: int) -> int
    decreases i + 1 when i >= -1
{
    if i < 0 {
        0
    } else {
        job_prefix_sum(m, s, i - 1) + m[0][s[i] as int] as int
    }
}

/// Sum over positions `i` on of each position's prefix sum of processing
/// times: the single-machine total completion time.
pub open spec fn single_machine_total_from(m: Seq<Seq<usize>>, s: Seq<usize>, i: int) -> int
    decreases s.len() - i,
{
    if i >= s.len() {
        0
    } else {
        job_prefix_sum(m, s, i) + single_machine_total_from(m, s, i + 1)
    }
}

/// Every well-shaped member's fitness fits the machine word.
pub open spec fn pfsp_fits(
    m: Seq<Seq<usize>>,
    n_jobs: int,
    n_machines: int,
    sols: Seq<Seq<usize>>,
) -> bool {
    forall|k: int| 0 <= k < sols.len() && sol_ok(n_jobs, #[trigger] sols[k]) ==> pfsp_fitness(
        m,
        sols[k],
        n_machines,
    ) <= usize::MAX
}

proof fn lemma_pfsp_c_nonneg(m: Seq<Seq<usize>>, s: Seq<usize>, i: int, k: int)
    requires
        mat_ok(m, m.len() as int, s.len() as int),
        sol_ok(s.len() as int, s),
        0 <= i < s.len(),
        0 <= k < m.len(),
    ensures
        pfsp_c(m, s, i, k) >= 0,
    decreases i + k,
{
    if i == 0 && k == 0 {
    } else if i == 0 {
        lemma_pfsp_c_nonneg(m, s, 0, k - 1);
    } else if k == 0 {
        lemma_pfsp_c_nonneg(m, s, i - 1, 0);
    } else {
        lemma_pfsp_c_nonneg(m, s, i - 1, k);
        lemma_pfsp_c_nonneg(m, s, i, k - 1);
    }
}

/// Completion times grow along the machines of one job.
proof fn lemma_pfsp_c_mono(m: Seq<Seq<usize>>, s: Seq<usize>, i: int, k1: int, k2: int)
    requires
        mat_ok(m, m.len() as int, s.len() as int),
        sol_ok(s.len() as int, s),
        0 <= i < s.len(),
        0 <= k1 <= k2 < m.len(),
    ensures
        pfsp_c(m, s, i, k1) <= pfsp_c(m, s, i, k2),
    decreases k2 - k1,
{
    if k1 < k2 {
        lemma_pfsp_c_mono(m, s, i, k1, k2 - 1);
        if i > 0 {
            lemma_pfsp_c_nonneg(m, s, i - 1, k2);
        }
    }
}

proof fn lemma_pfsp_tft_nonneg(m: Seq<Seq<usize>>, s: Seq<usize>, mach: int, i: int)
    requires
        mat_ok(m, m.len() as int, s.len() as int),
        sol_ok(s.len() as int, s),
        0 <= mach < m.len(),
        0 <= i,
    ensures
        pfsp_tft_from(m, s, mach, i) >= 0,
    decreases s.len() - i,
{
    if i < s.len() {
        lemma_pfsp_c_nonneg(m, s, i, mach);
        lemma_pfsp_tft_nonneg(m, s, mach, i + 1);
    }
}

/// Each job's completion time on a machine is at most the summed completion
/// times from any earlier position on.
proof fn lemma_pfsp_c_le_tft(m: Seq<Seq<usize>>, s: Seq<usize>, mach: int, j: int, i: int)
    requires
        mat_ok(m, m.len() as int, s.len() as int),
        sol_ok(s.len() as int, s),
        0 <= mach < m.len(),
        0 <= j <= i < s.len(),
    ensures
        pfsp_c(m, s, i, mach) <= pfsp_tft_from(m, s, mach, j),
    decreases i - j,
{
    if j == i {
        lemma_pfsp_tft_nonneg(m, s, mach, i + 1);
    } else {
        lemma_pfsp_c_le_tft(m, s, mach, j + 1, i);
        lemma_pfsp_c_nonneg(m, s, j, mach);
    }
}

proof fn lemma_pfsp_single_c(m: Seq<Seq<usize>>, s: Seq<usize>, i: int)
    requires
        mat_ok(m, 1, s.len() as int),
        sol_ok(s.len() as int, s),
        0 <= i < s.len(),
    ensures
        pfsp_c(m, s, i, 0) == job_prefix_sum(m, s, i),
    decreases i,
{
    if i == 0 {
        assert(pfsp_c(m, s, 0, 0) == m[0][s[0] as int] as int);
        assert(job_prefix_sum(m, s, -1) == 0);
        assert(job_prefix_sum(m, s, 0) == job_prefix_sum(m, s, -1) + m[0][s[0] as int] as int);
    } else {
        lemma_pfsp_single_c(m, s, i - 1);
        assert(pfsp_c(m, s, i, 0) == pfsp_c(m, s, i - 1, 0) + m[0][s[i] as int] as int);
        assert(job_prefix_sum(m, s, i) == job_prefix_sum(m, s, i - 1) + m[0][s[i] as int] as int);
    }
}

proof fn lemma_pfsp_single_from(m: Seq<Seq<usize>>, s: Seq<usize>, i: int)
    requires
        mat_ok(m, 1, s.len() as int),
        sol_ok(s.len() as int, s),
        0 <= i,
    ensures
        pfsp_tft_from(m, s, 0, i) == single_machine_total_from(m, s, i),
    decreases s.len() - i,
{
    if i < s.len() {
        lemma_pfsp_single_c(m, s, i);
        lemma_pfsp_single_from(m, s, i + 1);
    }
}

/// With a single machine the fitness is the single-machine total completion
/// time: the sum, over sequence positions, of the processing times of the
/// jobs placed so far.
pub proof fn lemma_pfsp_single_machine(m: Seq<Seq<usize>>, s: Seq<usize>)
    requires
        mat_ok(m, 1, s.len() as int),
        sol_ok(s.len() as int, s),
    ensures
        pfsp_fitness(m, s, 1) == single_machine_total_from(m, s, 0),
{
    lemma_pfsp_single_from(m, s, 0);
}

/// The second line of a flow-shop description: at least two tokens, the
/// first two valid integers that fit the machine word.
pub open spec fn sizes_line_ok(line: Seq<u8>) -> bool {
    &&& tokens_of(line).len() >= 2
    &&& is_dec(tokens_of(line)[0])
    &&& dec_value(tokens_of(line)[0]) <= usize::MAX
    &&& is_dec(tokens_of(line)[1])
    &&& dec_value(tokens_of(line)[1]) <= usize::MAX
}

/// The declared job count.
pub open spec fn sizes_line_jobs(line: Seq<u8>) -> int {
    dec_value(tokens_of(line)[0])
}

/// The declared machine count.
pub open spec fn sizes_line_machines(line: Seq<u8>) -> int {
    dec_value(tokens_of(line)[1])
}

impl Pfsp {
    /// The matrix has a row per machine and a column per job.
    pub open spec fn wf(&self) -> bool {
        mat_ok(views(self.matrix@), self.n_machines as int, self.size as int)
    }

    /// The processing-time matrix as a sequence of rows.
    pub open spec fn mat(&self) -> Seq<Seq<usize>> {
        views(self.matrix@)
    }

    /// Builds an instance from the lines of an instance description: an
    /// ignored line, a line declaring job and machine counts, another
    /// ignored line, then one row per machine of one entry per job.
    pub fn load(lines: &Vec<Vec<u8>>) -> (r: Result<Pfsp, Error>)
        ensures
            match r {
                Ok(p) => {
                    &&& p.wf()
                    &&& sizes_line_ok(line_at(lines@, 1))
                    &&& p.size as int == sizes_line_jobs(line_at(lines@, 1))
                    &&& p.n_machines as int == sizes_line_machines(line_at(lines@, 1))
                    &&& matrix_ok(lines@, 3, p.n_machines as int, p.size as int)
                    &&& forall|row: int, c: int|
                        0 <= row < p.n_machines && 0 <= c < p.size ==>
                            (#[trigger] p.matrix@[row]@[c]) as int == row_val(
                                line_at(lines@, 3 + row),
                                c,
                            )
                },
                Err(e) => {
                    ||| (e == Error::IOError && !sizes_line_ok(line_at(lines@, 1)))
                    ||| (e == Error::FileFormatError && sizes_line_ok(line_at(lines@, 1)) && (
                    sizes_line_machines(line_at(lines@, 1)) > usize::MAX - 3 || !matrix_ok(
                        lines@,
                        3,
                        sizes_line_machines(line_at(lines@, 1)),
                        sizes_line_jobs(line_at(lines@, 1)),
                    )))
                },
            },
    {
        let empty_line: Vec<u8> = Vec::new();
        let second = if lines.len() > 1 {
            &lines[1]
        } else {
            &empty_line
        };
        proof {
            if lines@.len() <= 1 {
                assert(line_at(lines@, 1) =~= Seq::<u8>::empty());
            }
            assert(second@ == line_at(lines@, 1));
        }
        let toks = tokenize(second);
        if toks.len() < 2 {
            return Err(Error::IOError);
        }
        proof {
            assert(toks@[0]@ == tokens_of(second@)[0]);
            assert(toks@[1]@ == tokens_of(second@)[1]);
        }
        let n_jobs = match parse_usize(&toks[0]) {
            Some(v) => v,
            None => {
                return Err(Error::IOError);
            },
        };
        let n_machines = match parse_usize(&toks[1]) {
            Some(v) => v,
            None => {
                return Err(Error::IOError);
            },
        };
        if n_machines > usize::MAX - 3 {
            return Err(Error::FileFormatError);
        }
        let matrix = match lines2matrix(lines, 3, n_machines, n_jobs) {
            Ok(m) => m,
            Err(e) => {
                return Err(e);
            },
        };
        Ok(Pfsp { size: n_jobs, n_machines, matrix })
    }

    /// The total flow time of one well-shaped job order.
    fn fitness_one(&self, s: &Vec<usize>) -> (r: usize)
        requires
            self.wf(),
            sol_ok(self.size as int, s@),
            pfsp_fitness(self.mat(), s@, self.n_machines as int) <= usize::MAX,
        ensures
            r as int == pfsp_fitness(self.mat(), s@, self.n_machines as int),
    {
        let ghost m = self.mat();
        let n = self.size;
        let nm = self.n_machines;
        if nm == 0 {
            return 0;
        }
        let ghost total = pfsp_fitness(m, s@, nm as int);
        let mut b: Vec<usize> = Vec::new();
        let mut z: usize = 0;
        while z < nm
            invariant
                b@.len() == z,
                z <= nm,
                forall|k: int| 0 <= k < z ==> (#[trigger] b@[k]) == 0,
            decreases nm - z,
        {
            b.push(0);
            z += 1;
        }
        let mut tft: usize = 0;
        let mut i: usize = 0;
        while i < n
            invariant
                self.wf(),
                sol_ok(n as int, s@),
                n == self.size,
                nm == self.n_machines,
                nm > 0,
                m == self.mat(),
                total == pfsp_fitness(m, s@, nm as int),
                total <= usize::MAX,
                b@.len() == nm,
                i <= n,
                tft as int == total - pfsp_tft_from(m, s@, nm - 1, i as int),
                i == 0 ==> forall|k: int| 0 <= k < nm ==> (#[trigger] b@[k]) == 0,
                i > 0 ==> forall|k: int| 0 <= k < nm ==> (#[trigger] b@[k]) as int == pfsp_c(
                    m,
                    s@,
                    i - 1,
                    k,
                ),
            decreases n - i,
        {
            let si = s[i];
            let mut pt: usize = 0;
            let mut k: usize = 0;
            while k < nm
                invariant
                    self.wf(),
                    sol_ok(n as int, s@),
                    n == self.size,
                    nm == self.n_machines,
                    nm > 0,
                    m == self.mat(),
                    total == pfsp_fitness(m, s@, nm as int),
                    total <= usize::MAX,
                    b@.len() == nm,
                    i < n,
                    si == s@[i as int],
                    k <= nm,
                    forall|k2: int| 0 <= k2 < k ==> (#[trigger] b@[k2]) as int == pfsp_c(
                        m,
                        s@,
                        i as int,
                        k2,
                    ),
                    i == 0 ==> forall|k2: int| k <= k2 < nm ==> (#[trigger] b@[k2]) == 0,
                    i > 0 ==> forall|k2: int| k <= k2 < nm ==> (#[trigger] b@[k2]) as int
                        == pfsp_c(m, s@, i - 1, k2),
                    k > 0 ==> pt as int == pfsp_c(m, s@, i as int, k - 1),
                decreases nm - k,
            {
                proof {
                    assert(m[k as int] == self.matrix@[k as int]@);
                    lemma_pfsp_c_mono(m, s@, i as int, k as int, nm - 1);
                    lemma_pfsp_c_le_tft(m, s@, nm - 1, 0, i as int);
                    assert(pfsp_c(m, s@, i as int, k as int) <= total);
                }
                let pm = self.matrix[k][si];
                if i == 0 && k == 0 {
                    pt = pm;
                } else if i > 0 && k == 0 {
                    pt = b[0] + pm;
                } else if i == 0 && k > 0 {
                    pt = b[k - 1] + pm;
                } else {
                    let b1 = b[k - 1];
                    let b0 = b[k];
                    let mx = if b1 >= b0 {
                        b1
                    } else {
                        b0
                    };
                    pt = mx + pm;
                }
                proof {
                    assert(pt as int == pfsp_c(m, s@, i as int, k as int));
                }
                b.set(k, pt);
                k += 1;
            }
            proof {
                assert(pt as int == pfsp_c(m, s@, i as int, nm - 1));
                assert(pfsp_tft_from(m, s@, nm - 1, i as int) == pfsp_c(m, s@, i as int, nm - 1)
                    + pfsp_tft_from(m, s@, nm - 1, i + 1));
                lemma_pfsp_tft_nonneg(m, s@, nm - 1, i + 1);
            }
            tft = tft + pt;
            i += 1;
        }
        proof {
            assert(pfsp_tft_from(m, s@, nm - 1, n as int) == 0);
        }
        tft
    }

    /// Evaluates every member of a population against the instance; any
    /// wrongly shaped member fails the whole call.
    pub fn evaluate(&self, solutions: Vec<Vec<usize>>) -> (r: Result<Vec<usize>, Error>)
        requires
            self.wf(),
            pfsp_fits(self.mat(), self.size as int, self.n_machines as int, views(solutions@)),
        ensures
            match r {
                Ok(v) => {
                    &&& all_sols_ok(self.size as int, views(solutions@))
                    &&& v@.len() == solutions@.len()
                    &&& forall|k: int|
                        0 <= k < solutions@.len() ==> (#[trigger] v@[k]) as int == pfsp_fitness(
                            self.mat(),
                            solutions@[k]@,
                            self.n_machines as int,
                        )
                },
                Err(e) => {
                    &&& e == Error::ShapeMismatchError
                    &&& !all_sols_ok(self.size as int, views(solutions@))
                },
            },
    {
        let mut v: Vec<usize> = Vec::new();
        let mut k: usize = 0;
        while k < solutions.len()
            invariant
                self.wf(),
                pfsp_fits(
                    self.mat(),
                    self.size as int,
                    self.n_machines as int,
                    views(solutions@),
                ),
                v@.len() == k,
                k <= solutions@.len(),
                forall|j: int| 0 <= j < k ==> sol_ok(self.size as int, views(solutions@)[j]),
                forall|j: int| 0 <= j < k ==> (#[trigger] v@[j]) as int == pfsp_fitness(
                    self.mat(),
                    solutions@[j]@,
                    self.n_machines as int,
                ),
            decreases solutions@.len() - k,
        {
            if !check_sol(self.size, &solutions[k]) {
                proof {
                    assert(views(solutions@)[k as int] == solutions@[k as int]@);
                    assert(!sol_ok(self.size as int, views(solutions@)[k as int]));
                }
                return Err(Error::ShapeMismatchError);
            }
            proof {
                assert(views(solutions@)[k as int] == solutions@[k as int]@);
            }
            let f = self.fitness_one(&solutions[k]);
            v.push(f);
            k += 1;
        }
        proof {
            assert forall|j: int| 0 <= j < solutions@.len() implies sol_ok(
                self.size as int,
                #[trigger] views(solutions@)[j],
            ) by {}
        }
        Ok(v)
    }

    /// Evaluates many independent batches, each through `evaluate`, the
    /// batches handled independently of one another.
    ///
    /// Relies on rayon's `into_par_iter`, `map` and `collect` into `Result`:
    /// the output preserves batch order, and any batch's error aborts the
    /// whole call with that error.
    #[verifier::external_body]
    fn par_evaluate(&self, batches: Vec<Vec<Vec<usize>>>) -> (r: Result<Vec<Vec<usize>>, Error>)
        requires
            self.wf(),
            forall|b: int| 0 <= b < batches@.len() ==> pfsp_fits(
                self.mat(),
                self.size as int,
                self.n_machines as int,
                views((#[trigger] batches@[b])@),
            ),
        ensures
            match r {
                Ok(rs) => {
                    &&& rs@.len() == batches@.len()
                    &&& forall|b: int| 0 <= b < batches@.len() ==> all_sols_ok(
                        self.size as int,
                        views((#[trigger] batches@[b])@),
                    )
                    &&& forall|b: int| 0 <= b < batches@.len() ==> (#[trigger] rs@[b])@.len()
                        == batches@[b]@.len()
                    &&& forall|b: int, k: int|
                        0 <= b < batches@.len() && 0 <= k < (#[trigger] batches@[b])@.len() ==>
                            (#[trigger] rs@[b]@[k]) as int == pfsp_fitness(
                                self.mat(),
                                batches@[b]@[k]@,
                                self.n_machines as int,
                            )
                },
                Err(e) => {
                    &&& e == Error::ShapeMismatchError
                    &&& exists|b: int| 0 <= b < batches@.len() && !all_sols_ok(
                        self.size as int,
                        views((#[trigger] batches@[b])@),
                    )
                },
            },
    {
        rayon::iter::ParallelIterator::collect(rayon::iter::ParallelIterator::map(
            rayon::iter::IntoParallelIterator::into_par_iter(batches),
            |batch| self.evaluate(batch),
        ))
    }

    /// Evaluates many independent batches of solutions; batch `k` of the
    /// result is `evaluate` of input batch `k`.
    pub fn evaluate_batch(&self, solutions: Vec<Vec<Vec<usize>>>) -> (r: Result<
        Vec<Vec<usize>>,
        Error,
    >)
        requires
            self.wf(),
            forall|b: int| 0 <= b < solutions@.len() ==> pfsp_fits(
                self.mat(),
                self.size as int,
                self.n_machines as int,
                views((#[trigger] solutions@[b])@),
            ),
        ensures
            match r {
                Ok(rs) => {
                    &&& rs@.len() == solutions@.len()
                    &&& forall|b: int| 0 <= b < solutions@.len() ==> all_sols_ok(
                        self.size as int,
                        views((#[trigger] solutions@[b])@),
                    )
                    &&& forall|b: int| 0 <= b < solutions@.len() ==> (#[trigger] rs@[b])@.len()
                        == solutions@[b]@.len()
                    &&& forall|b: int, k: int|
                        0 <= b < solutions@.len() && 0 <= k < (#[trigger] solutions@[b])@.len()
                            ==> (#[trigger] rs@[b]@[k]) as int == pfsp_fitness(
                            self.mat(),
                            solutions@[b]@[k]@,
                            self.n_machines as int,
                        )
                },
                Err(e) => {
                    &&& e == Error::ShapeMismatchError
                    &&& exists|b: int| 0 <= b < solutions@.len() && !all_sols_ok(
                        self.size as int,
                        views((#[trigger] solutions@[b])@),
                    )
                },
            },
    {
        self.par_evaluate(solutions)
    }
}

} // verus!
