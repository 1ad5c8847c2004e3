use vstd::prelude::*;

pub mod borda;
pub mod codec;
pub mod lop;
pub mod parse;
pub mod perm;
pub mod pfsp;
pub mod qap;
pub mod sampler;

verus! {

/// The views of the members of a sequence of vectors.
pub open spec fn views<T>(s: Seq<Vec<T>>) -> Seq<Seq<T>> {
    s.map_values(|v: Vec<T>| v@)
}

/// A rectangular matrix of the given shape.
pub open spec fn mat_ok(m: Seq<Seq<usize>>, rows: int, cols: int) -> bool {
    &&& m.len() == rows
    &&& forall|r: int| 0 <= r < rows ==> (#[trigger] m[r]).len() == cols
}

/// A solution of the right length whose entries index the instance: `n`
/// values, each below `n`.
pub open spec fn sol_ok(n: int, s: Seq<usize>) -> bool {
    &&& s.len() == n
    &&& forall|i: int| 0 <= i < s.len() ==> (#[trigger] s[i]) < n
}

/// Every member of the population has the instance's shape.
pub open spec fn all_sols_ok(n: int, sols: Seq<Seq<usize>>) -> bool {
    forall|k: int| 0 <= k < sols.len() ==> sol_ok(n, #[trigger] sols[k])
}

/// Decides whether `s` has length `n` with every entry below `n`.
pub fn check_sol(n: usize, s: &Vec<usize>) -> (r: bool)
    ensures
        r == sol_ok(n as int, s@),
{
    if s.len() != n {
        return false;
    }
    let mut i: usize = 0;
    while i < n
        invariant
            s@.len() == n,
            i <= n,
            forall|j: int| 0 <= j < i ==> (#[trigger] s@[j]) < n,
        decreases n - i,
    {
        if s[i] >= n {
            return false;
        }
        i += 1;
    }
    true
}

/// Typed failures surfaced by the fallible operations of the library.
///
/// No operation aborts the process: every failure is reported as one of
/// these values.
#[derive(Clone, Copy, Debug, PartialEq, Eq, Structural)]
pub enum Error {
    /// The instance source could not be read, or a dimension token of an
    /// instance description is not a valid non-negative integer.
    IOError,
    /// A matrix row has the wrong number of tokens, or a row token is not a
    /// valid non-negative integer that fits the machine word.
    FileFormatError,
    /// A solution's length does not match the instance dimension, or the
    /// permutations handed to a composition differ in length.
    ShapeMismatchError,
    /// A weight vector is empty or holds a weight that is not strictly
    /// positive.
    InvalidWeightError,
    /// An inversion code entry indexes past the count of remaining unused
    /// values.
    DecodeError,
}

} // verus!
