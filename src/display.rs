use vstd::prelude::*;
use vstd::string::StringExecFns;

use crate::{lemma_flat_index, Grid, Matrix};

verus! {

/// The decimal digit `d` (`0 <= d < 10`) as a character.
pub open spec fn digit_char(d: int) -> char {
    if d == 0 {
        '0'
    } else if d == 1 {
        '1'
    } else if d == 2 {
        '2'
    } else if d == 3 {
        '3'
    } else if d == 4 {
        '4'
    } else if d == 5 {
        '5'
    } else if d == 6 {
        '6'
    } else if d == 7 {
        '7'
    } else if d == 8 {
        '8'
    } else {
        '9'
    }
}

/// The decimal digits of `n`, most significant first, without leading zeros.
pub open spec fn digits(n: nat) -> Seq<char>
    decreases n,
{
    if n < 10 {
        seq![digit_char(n as int)]
    } else {
        digits(n / 10).push(digit_char((n % 10) as int))
    }
}

/// `v` written in decimal, with a leading `-` when negative.
pub open spec fn decimal(v: int) -> Seq<char> {
    if v < 0 {
        seq!['-'] + digits((-v) as nat)
    } else {
        digits(v as nat)
    }
}

/// The first `c` entries of row `r`, each followed by a space.
pub open spec fn row_text(g: Grid, r: int, c: int) -> Seq<char>
    decreases c,
{
    if c <= 0 {
        Seq::empty()
    } else {
        row_text(g, r, c - 1) + decimal(g.at(r, c - 1) as int) + seq![' ']
    }
}

/// The first `r` rows of `g`, each written by `row_text` and ended by a newline.
pub open spec fn grid_text(g: Grid, r: int) -> Seq<char>
    decreases r,
{
    if r <= 0 {
        Seq::empty()
    } else {
        grid_text(g, r - 1) + row_text(g, r - 1, g.width as int) + seq!['\n']
    }
}

/// Relies on the standard library's `ToString` for `i64` (through `Display`),
/// which writes the value in decimal with a leading `-` when negative.
#[verifier::external_body]
fn decimal_string(v: i64) -> (r: String)
    ensures
        r@ == decimal(v as int),
{
    v.to_string()
}

impl Matrix {
    /// One line per row; each entry is written in decimal and followed by a
    /// space, and each line ends with a newline.
    pub fn to_string(&self) -> (r: String)
        requires
            self.wf(),
        ensures
            r@ == grid_text(self@, self@.height as int),
    {
        let mut out = String::new();
        let mut row: usize = 0;
        while row < self.height
            invariant
                self.wf(),
                row <= self.height,
                out@ == grid_text(self@, row as int),
            decreases self.height - row,
        {
            let mut col: usize = 0;
            let ghost before = out@;
            while col < self.width
                invariant
                    self.wf(),
                    row < self.height,
                    col <= self.width,
                    out@ == before + row_text(self@, row as int, col as int),
                decreases self.width - col,
            {
                proof {
                    lemma_flat_index(self.height as int, self.width as int, row as int, col as int);
                    reveal_strlit(" ");
                }
                let piece = decimal_string(self.data[row * self.width + col]);
                out.append(piece.as_str());
                out.append(" ");
                assert(out@ =~= before + row_text(self@, row as int, col + 1));
                col = col + 1;
            }
            proof {
                reveal_strlit("\n");
            }
            out.append("\n");
            assert(out@ =~= grid_text(self@, row + 1));
            row = row + 1;
        }
        out
    }
}

} // verus!
