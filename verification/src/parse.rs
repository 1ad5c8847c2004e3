//! Parsing of whitespace-delimited non-negative integers and matrix rows
//! from instance text held as byte lines.

use vstd::prelude::*;
use crate::views;
use crate::Error;

verus! {

/// Whitespace as the instance format uses it: space, tab, carriage return,
/// line feed.
pub open spec fn is_ws(b: u8) -> bool {
    b == 32 || b == 9 || b == 13 || b == 10
}

/// An ASCII decimal digit.
pub open spec fn is_digit_byte(b: u8) -> bool {
    48 <= b && b <= 57
}

/// The end of the token that starts at position `i`: the first position at
/// or after `i` holding whitespace, or the line's end.
pub open spec fn tok_end(s: Seq<u8>, i: int) -> int
    decreases s.len() - i when 0 <= i <= s.len()
{
    if i >= s.len() || is_ws(s[i]) {
        i
    } else {
        tok_end(s, i + 1)
    }
}

pub proof fn lemma_tok_end_bounds(s: Seq<u8>, i: int)
    requires
        0 <= i <= s.len(),
    ensures
        i <= tok_end(s, i) <= s.len(),
    decreases s.len() - i,
{
    if i < s.len() && !is_ws(s[i]) {
        lemma_tok_end_bounds(s, i + 1);
    }
}

/// The token starting at `i` ends exactly at the first whitespace position
/// at or after `i`.
pub proof fn lemma_tok_end_is(s: Seq<u8>, i: int, j: int)
    requires
        0 <= i <= j <= s.len(),
        forall|m: int| i <= m < j ==> !is_ws(#[trigger] s[m]),
        j == s.len() || is_ws(s[j]),
    ensures
        tok_end(s, i) == j,
    decreases j - i,
{
    if i < j {
        lemma_tok_end_is(s, i + 1, j);
    }
}

/// The whitespace-separated tokens of the line from position `i` on.
pub open spec fn tokens_from(s: Seq<u8>, i: int) -> Seq<Seq<u8>>
    decreases s.len() - i when 0 <= i <= s.len() via tokens_from_decreases
{
    if i >= s.len() {
        Seq::empty()
    } else if is_ws(s[i]) {
        tokens_from(s, i + 1)
    } else {
        seq![s.subrange(i, tok_end(s, i))] + tokens_from(s, tok_end(s, i))
    }
}

#[via_fn]
proof fn tokens_from_decreases(s: Seq<u8>, i: int) {
    if 0 <= i && i < s.len() && !is_ws(s[i]) {
        lemma_tok_end_bounds(s, i + 1);
    }
}

/// The whitespace-separated tokens of a whole line.
pub open spec fn tokens_of(s: Seq<u8>) -> Seq<Seq<u8>> {
    tokens_from(s, 0)
}

/// The value of an all-digit token read as a decimal number.
pub open spec fn dec_value(s: Seq<u8>) -> int
    decreases s.len(),
{
    if s.len() == 0 {
        0
    } else {
        dec_value(s.drop_last()) * 10 + (s.last() - 48)
    }
}

/// A non-empty token made of decimal digits only.
pub open spec fn is_dec(s: Seq<u8>) -> bool {
    s.len() > 0 && forall|i: int| 0 <= i < s.len() ==> is_digit_byte(#[trigger] s[i])
}

pub proof fn lemma_dec_value_nonneg(s: Seq<u8>)
    requires
        forall|i: int| 0 <= i < s.len() ==> is_digit_byte(#[trigger] s[i]),
    ensures
        dec_value(s) >= 0,
    decreases s.len(),
{
    if s.len() > 0 {
        lemma_dec_value_nonneg(s.drop_last());
    }
}

/// Extending an all-digit token can only grow its value.
pub proof fn lemma_dec_value_prefix(s: Seq<u8>, k: int)
    requires
        0 <= k <= s.len(),
        forall|i: int| 0 <= i < s.len() ==> is_digit_byte(#[trigger] s[i]),
    ensures
        dec_value(s) >= dec_value(s.subrange(0, k)),
    decreases s.len() - k,
{
    if k == s.len() {
        assert(s.subrange(0, k) =~= s);
    } else {
        let p = s.subrange(0, k);
        let q = s.subrange(0, k + 1);
        assert(q.drop_last() =~= p);
        assert(q.last() == s[k]);
        lemma_dec_value_nonneg(p);
        assert(dec_value(q) == dec_value(p) * 10 + (s[k] - 48));
        lemma_dec_value_prefix(s, k + 1);
    }
}

/// Reports whether `b` is whitespace of the instance format.
fn byte_is_ws(b: u8) -> (r: bool)
    ensures
        r == is_ws(b),
{
    b == 32 || b == 9 || b == 13 || b == 10
}

/// Splits a line into its whitespace-separated tokens.
pub fn tokenize(line: &Vec<u8>) -> (r: Vec<Vec<u8>>)
    ensures
        views(r@) == tokens_of(line@),
{
    let n = line.len();
    let mut r: Vec<Vec<u8>> = Vec::new();
    let mut i: usize = 0;
    while i < n
        invariant
            line@.len() == n,
            i <= n,
            views(r@) + tokens_from(line@, i as int) == tokens_of(line@),
        decreases n - i,
    {
        if byte_is_ws(line[i]) {
            proof {
                assert(tokens_from(line@, i as int) == tokens_from(line@, i + 1));
            }
            i += 1;
        } else {
            let start = i;
            let mut j = i;
            while j < n && !byte_is_ws(line[j])
                invariant
                    line@.len() == n,
                    i <= j <= n,
                    forall|m: int| i <= m < j ==> !is_ws(#[trigger] line@[m]),
                decreases n - j,
            {
                j += 1;
            }
            proof {
                lemma_tok_end_is(line@, i as int, j as int);
            }
            let mut t: Vec<u8> = Vec::new();
            let mut m = i;
            while m < j
                invariant
                    line@.len() == n,
                    i <= m <= j <= n,
                    t@ == line@.subrange(i as int, m as int),
                decreases j - m,
            {
                proof {
                    assert(line@.subrange(i as int, m + 1) =~= line@.subrange(
                        i as int,
                        m as int,
                    ).push(line@[m as int]));
                }
                t.push(line[m]);
                m += 1;
            }
            proof {
                assert(views(r@.push(t)) =~= views(r@).push(t@));
                assert((views(r@) + seq![t@]) + tokens_from(line@, j as int) =~= views(r@) + (
                seq![t@] + tokens_from(line@, j as int)));
                assert(views(r@).push(t@) =~= views(r@) + seq![t@]);
                assert(seq![t@] + tokens_from(line@, j as int) == tokens_from(
                    line@,
                    i as int,
                ));
            }
            r.push(t);
            i = j;
        }
    }
    proof {
        assert(views(r@) + tokens_from(line@, n as int) =~= views(r@));
    }
    r
}

/// Parses an all-digit token into a machine word; `None` when the token is
/// not all digits, is empty, or its value does not fit.
pub fn parse_usize(tok: &Vec<u8>) -> (r: Option<usize>)
    ensures
        match r {
            Some(v) => is_dec(tok@) && dec_value(tok@) <= usize::MAX && v as int == dec_value(
                tok@,
            ),
            None => !is_dec(tok@) || dec_value(tok@) > usize::MAX,
        },
{
    let n = tok.len();
    if n == 0 {
        return None;
    }
    let mut acc: usize = 0;
    let mut i: usize = 0;
    while i < n
        invariant
            tok@.len() == n,
            i <= n,
            forall|m: int| 0 <= m < i ==> is_digit_byte(#[trigger] tok@[m]),
            acc as int == dec_value(tok@.subrange(0, i as int)),
        decreases n - i,
    {
        let b = tok[i];
        if b < 48 || b > 57 {
            return None;
        }
        let d = (b - 48) as usize;
        proof {
            assert(tok@.subrange(0, i + 1).drop_last() =~= tok@.subrange(0, i as int));
            assert(tok@.subrange(0, i + 1).last() == tok@[i as int]);
        }
        let acc10 = match acc.checked_mul(10) {
            Some(x) => x,
            None => {
                proof {
                    if is_dec(tok@) {
                        lemma_dec_value_nonneg(tok@.subrange(0, i as int));
                        lemma_dec_value_prefix(tok@, i + 1);
                    }
                }
                return None;
            },
        };
        let acc2 = match acc10.checked_add(d) {
            Some(x) => x,
            None => {
                proof {
                    if is_dec(tok@) {
                        lemma_dec_value_nonneg(tok@.subrange(0, i as int));
                        lemma_dec_value_prefix(tok@, i + 1);
                    }
                }
                return None;
            },
        };
        acc = acc2;
        i += 1;
    }
    proof {
        assert(tok@.subrange(0, n as int) =~= tok@);
    }
    Some(acc)
}

/// A line is a valid row of `n` entries: exactly `n` tokens, each all digits
/// with a value that fits the machine word.
pub open spec fn row_ok(line: Seq<u8>, n: int) -> bool {
    &&& tokens_of(line).len() == n
    &&& forall|c: int| 0 <= c < n ==> is_dec(#[trigger] tokens_of(line)[c])
    &&& forall|c: int| 0 <= c < n ==> dec_value(#[trigger] tokens_of(line)[c]) <= usize::MAX
}

/// The value of entry `c` of a row line.
pub open spec fn row_val(line: Seq<u8>, c: int) -> int {
    dec_value(tokens_of(line)[c])
}

/// Parses one matrix row of exactly `n_elems` entries.
pub fn parse_row(line: &Vec<u8>, n_elems: usize) -> (r: Result<Vec<usize>, Error>)
    ensures
        match r {
            Ok(row) => {
                &&& row_ok(line@, n_elems as int)
                &&& row@.len() == n_elems
                &&& forall|c: int| 0 <= c < n_elems ==> (#[trigger] row@[c]) as int == row_val(
                    line@,
                    c,
                )
            },
            Err(e) => e == Error::FileFormatError && !row_ok(line@, n_elems as int),
        },
{
    let toks = tokenize(line);
    if toks.len() != n_elems {
        return Err(Error::FileFormatError);
    }
    let mut row: Vec<usize> = Vec::new();
    let mut c: usize = 0;
    while c < n_elems
        invariant
            views(toks@) == tokens_of(line@),
            toks@.len() == n_elems,
            c <= n_elems,
            row@.len() == c,
            forall|m: int| 0 <= m < c ==> is_dec(#[trigger] tokens_of(line@)[m]),
            forall|m: int| 0 <= m < c ==> dec_value(#[trigger] tokens_of(line@)[m])
                <= usize::MAX,
            forall|m: int| 0 <= m < c ==> (#[trigger] row@[m]) as int == row_val(line@, m),
        decreases n_elems - c,
    {
        proof {
            assert(toks@[c as int]@ == tokens_of(line@)[c as int]);
        }
        match parse_usize(&toks[c]) {
            Some(v) => {
                row.push(v);
            },
            None => {
                return Err(Error::FileFormatError);
            },
        }
        c += 1;
    }
    Ok(row)
}

/// A dimension line: after trimming, a single all-digit token whose value
/// fits the machine word.
pub open spec fn size_line_ok(line: Seq<u8>) -> bool {
    &&& tokens_of(line).len() == 1
    &&& is_dec(tokens_of(line)[0])
    &&& dec_value(tokens_of(line)[0]) <= usize::MAX
}

/// The dimension a dimension line declares.
pub open spec fn size_line_val(line: Seq<u8>) -> int {
    dec_value(tokens_of(line)[0])
}

/// Parses a dimension line; `None` when it does not hold exactly one valid
/// integer token.
pub fn parse_size_line(line: &Vec<u8>) -> (r: Option<usize>)
    ensures
        match r {
            Some(v) => size_line_ok(line@) && v as int == size_line_val(line@),
            None => !size_line_ok(line@),
        },
{
    let toks = tokenize(line);
    if toks.len() != 1 {
        return None;
    }
    proof {
        assert(toks@[0]@ == tokens_of(line@)[0]);
    }
    parse_usize(&toks[0])
}

/// The line at index `idx`; lines past the end read as empty, as a reader at
/// the end of its input yields empty lines.
pub open spec fn line_at(lines: Seq<Vec<u8>>, idx: int) -> Seq<u8> {
    if 0 <= idx < lines.len() {
        lines[idx]@
    } else {
        Seq::empty()
    }
}

/// The rows `start .. start + n_lines` form a matrix of `n_lines` rows of
/// `n_elems` valid entries each.
pub open spec fn matrix_ok(lines: Seq<Vec<u8>>, start: int, n_lines: int, n_elems: int) -> bool {
    forall|r: int| 0 <= r < n_lines ==> row_ok(#[trigger] line_at(lines, start + r), n_elems)
}

/// Parses the lines `start .. start + n_lines` as a matrix of the given
/// shape.
pub fn lines2matrix(lines: &Vec<Vec<u8>>, start: usize, n_lines: usize, n_elems: usize) -> (r:
    Result<Vec<Vec<usize>>, Error>)
    requires
        start + n_lines <= usize::MAX,
    ensures
        match r {
            Ok(m) => {
                &&& matrix_ok(lines@, start as int, n_lines as int, n_elems as int)
                &&& m@.len() == n_lines
                &&& forall|row: int| 0 <= row < n_lines ==> (#[trigger] m@[row])@.len()
                    == n_elems
                &&& forall|row: int, c: int| 0 <= row < n_lines && 0 <= c < n_elems ==>
                    (#[trigger] m@[row]@[c]) as int == row_val(
                        line_at(lines@, start + row),
                        c,
                    )
            },
            Err(e) => e == Error::FileFormatError && !matrix_ok(
                lines@,
                start as int,
                n_lines as int,
                n_elems as int,
            ),
        },
{
    let empty_line: Vec<u8> = Vec::new();
    let mut m: Vec<Vec<usize>> = Vec::new();
    let mut row: usize = 0;
    while row < n_lines
        invariant
            start + n_lines <= usize::MAX,
            empty_line@.len() == 0,
            row <= n_lines,
            m@.len() == row,
            forall|j: int| 0 <= j < row ==> row_ok(
                #[trigger] line_at(lines@, start + j),
                n_elems as int,
            ),
            forall|j: int| 0 <= j < row ==> (#[trigger] m@[j])@.len() == n_elems,
            forall|j: int, c: int| 0 <= j < row && 0 <= c < n_elems ==>
                (#[trigger] m@[j]@[c]) as int == row_val(line_at(lines@, start + j), c),
        decreases n_lines - row,
    {
        let idx = start + row;
        let parsed = if idx < lines.len() {
            proof {
                assert(line_at(lines@, start + row as int) == lines@[idx as int]@);
            }
            parse_row(&lines[idx], n_elems)
        } else {
            proof {
                assert(line_at(lines@, start + row as int) == empty_line@);
            }
            parse_row(&empty_line, n_elems)
        };
        match parsed {
            Ok(r) => {
                m.push(r);
            },
            Err(e) => {
                return Err(e);
            },
        }
        row += 1;
    }
    Ok(m)
}

} // verus!
