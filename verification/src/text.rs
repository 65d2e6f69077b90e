use vstd::prelude::*;
use crate::matrix::{Matrix, lemma_flat_index_bound};

verus! {

/// The decimal digit character for `d` in `0 ..= 9`.
pub open spec fn digit_char(d: int) -> char {
    if d == 0 {
        '0'
    } else if d == 1 {
        '1'
    } else if d == 2 {
        '2'
    } else if d == 3 {
        '3'
    } else if d == 4 {
        '4'
    } else if d == 5 {
        '5'
    } else if d == 6 {
        '6'
    } else if d == 7 {
        '7'
    } else if d == 8 {
        '8'
    } else {
        '9'
    }
}

/// The decimal digits of a positive number, most significant first;
/// empty for zero and below.
pub open spec fn dec_digits(n: int) -> Seq<char>
    decreases n,
{
    if n <= 0 {
        Seq::empty()
    } else {
        dec_digits(n / 10).push(digit_char(n % 10))
    }
}

/// The decimal rendering of an integer: its digits, preceded by '-' when
/// negative.
pub open spec fn decimal_of(v: int) -> Seq<char> {
    if v == 0 {
        seq!['0']
    } else if v < 0 {
        seq!['-'] + dec_digits(-v)
    } else {
        dec_digits(v)
    }
}

/// One rendered cell: the element at (`i`, `j`) followed by a separator.
pub open spec fn cell_text(m: &Matrix<i64>, i: int, j: int) -> Seq<char> {
    decimal_of(m.entry(i, j) as int) + seq![',', ' ']
}

/// The first `j` rendered cells of row `i`.
pub open spec fn row_prefix_text(m: &Matrix<i64>, i: int, j: int) -> Seq<char>
    decreases j,
{
    if j <= 0 {
        Seq::empty()
    } else {
        row_prefix_text(m, i, j - 1) + cell_text(m, i, j - 1)
    }
}

/// The first `i` rendered rows, each closed by a newline.
pub open spec fn grid_prefix_text(m: &Matrix<i64>, i: int) -> Seq<char>
    decreases i,
{
    if i <= 0 {
        Seq::empty()
    } else {
        grid_prefix_text(m, i - 1) + row_prefix_text(m, i - 1, m.cols as int) + seq!['\n']
    }
}

/// The full rendering: every row in order, then a summary line with the
/// row and column counts.
pub open spec fn render_text(m: &Matrix<i64>) -> Seq<char> {
    grid_prefix_text(m, m.rows as int) + seq!['R', 'o', 'w', 's', ':', ' '] + decimal_of(
        m.rows as int,
    ) + seq![',', ' '] + seq!['C', 'o', 'l', 'u', 'm', 'n', 's', ':', ' '] + decimal_of(
        m.cols as int,
    )
}

/// Relies on ToString for i64 (std's decimal Display): the digits of the
/// value, with a leading '-' when it is negative.
#[verifier::external_body]
fn decimal_chars_i64(v: i64) -> (r: Vec<char>)
    ensures
        r@ == decimal_of(v as int),
{
    v.to_string().chars().collect()
}

/// Relies on ToString for usize (std's decimal Display): the digits of
/// the value.
#[verifier::external_body]
fn decimal_chars_usize(v: usize) -> (r: Vec<char>)
    ensures
        r@ == decimal_of(v as int),
{
    v.to_string().chars().collect()
}

/// Relies on FromIterator for String: the collected string holds exactly
/// the given characters in order.
#[verifier::external_body]
fn chars_to_string(chars: &Vec<char>) -> (r: String)
    ensures
        r@ == chars@,
{
    chars.iter().collect()
}

/// Appends every character of `src` to `out`, in order.
#[verifier::loop_isolation(false)]
fn append_chars(out: &mut Vec<char>, src: &Vec<char>)
    ensures
        final(out)@ == old(out)@ + src@,
{
    let n: usize = src.len();
    for k in 0..n
        invariant
            out@ == old(out)@ + src@.subrange(0, k as int),
    {
        out.push(src[k]);
        proof {
            assert(out@ =~= old(out)@ + src@.subrange(0, k + 1));
        }
    }
    proof {
        assert(old(out)@ + src@.subrange(0, n as int) =~= old(out)@ + src@);
    }
}

impl Matrix<i64> {
    /// A textual dump in row-major order: every row on its own line, each
    /// cell followed by ", ", and a closing summary of the shape.
    #[verifier::loop_isolation(false)]
    pub fn to_text(&self) -> (r: String)
        requires
            self.wf(),
        ensures
            r@ == render_text(self),
    {
        let n: usize = self.data.len();
        let mut out: Vec<char> = Vec::new();
        for i in 0..self.rows
            invariant
                out@ == grid_prefix_text(self, i as int),
        {
            for j in 0..self.cols
                invariant
                    out@ == grid_prefix_text(self, i as int) + row_prefix_text(
                        self,
                        i as int,
                        j as int,
                    ),
            {
                proof {
                    lemma_flat_index_bound(i as int, j as int, self.rows as int, self.cols as int);
                    assert(i * self.cols + j < n);
                }
                let d = decimal_chars_i64(self.data[i * self.cols + j]);
                append_chars(&mut out, &d);
                out.push(',');
                out.push(' ');
                proof {
                    assert(out@ =~= grid_prefix_text(self, i as int) + row_prefix_text(
                        self,
                        i as int,
                        j + 1,
                    ));
                }
            }
            out.push('\n');
            proof {
                assert(out@ =~= grid_prefix_text(self, i + 1));
            }
        }
        out.push('R');
        out.push('o');
        out.push('w');
        out.push('s');
        out.push(':');
        out.push(' ');
        let dr = decimal_chars_usize(self.rows);
        append_chars(&mut out, &dr);
        out.push(',');
        out.push(' ');
        out.push('C');
        out.push('o');
        out.push('l');
        out.push('u');
        out.push('m');
        out.push('n');
        out.push('s');
        out.push(':');
        out.push(' ');
        let dc = decimal_chars_usize(self.cols);
        append_chars(&mut out, &dc);
        proof {
            assert(out@ =~= render_text(self));
        }
        chars_to_string(&out)
    }
}

} // verus!
