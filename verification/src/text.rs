//! Numbers and matrices in text.
use crate::matrix::entry;
use crate::scalar::Scalar;
use vstd::prelude::*;
use vstd::string::*;

verus! {

/// The character for a decimal digit.
pub open spec fn digit(d: nat) -> char {
    (48 + d) as char
}

/// A number in decimal digits.
pub open spec fn decimal(n: nat) -> Seq<char>
    decreases n,
{
    if n < 10 {
        seq![digit(n)]
    } else {
        decimal(n / 10).push(digit(n % 10))
    }
}

/// The text of the first `j` entries of row `i`, with a comma after each but the
/// last of the row.
pub open spec fn cells_text<T: Scalar>(m: Seq<T>, d: nat, i: int, j: nat) -> Seq<char>
    decreases j,
{
    if j == 0 {
        seq![]
    } else {
        cells_text(m, d, i, (j - 1) as nat) + entry(m, d, i, j - 1).text_spec() + (if j == d {
            seq![]
        } else {
            ", "@
        })
    }
}

/// The text of the first `i` rows, each in brackets on a line of its own, with
/// one more bracket after the last row of all.
pub open spec fn rows_text<T: Scalar>(m: Seq<T>, d: nat, i: nat) -> Seq<char>
    decreases i,
{
    if i == 0 {
        seq![]
    } else {
        rows_text(m, d, (i - 1) as nat) + "["@ + cells_text(m, d, i - 1, d) + "]"@ + (if i == d {
            "]"@
        } else {
            seq![]
        }) + "\n"@
    }
}

/// The text of a matrix with `d` rows.
pub open spec fn matrix_text<T: Scalar>(m: Seq<T>, d: nat) -> Seq<char> {
    "["@ + rows_text(m, d, d) + "\n\n"@
}

/// The text of one decimal digit.
fn digit_text(d: usize) -> (r: &'static str)
    requires
        d < 10,
    ensures
        r@ == seq![digit(d as nat)],
{
    proof {
        reveal_strlit("0");
        reveal_strlit("1");
        reveal_strlit("2");
        reveal_strlit("3");
        reveal_strlit("4");
        reveal_strlit("5");
        reveal_strlit("6");
        reveal_strlit("7");
        reveal_strlit("8");
        reveal_strlit("9");
    }
    let r: &'static str = match d {
        0 => "0",
        1 => "1",
        2 => "2",
        3 => "3",
        4 => "4",
        5 => "5",
        6 => "6",
        7 => "7",
        8 => "8",
        _ => "9",
    };
    assert(r@ =~= seq![digit(d as nat)]);
    r
}

/// A number in decimal digits.
pub fn decimal_text(n: usize) -> (r: String)
    ensures
        r@ == decimal(n as nat),
    decreases n,
{
    if n < 10 {
        digit_text(n).to_owned()
    } else {
        let mut s = decimal_text(n / 10);
        s.append(digit_text(n % 10));
        assert(s@ =~= decimal(n as nat));
        s
    }
}

} // verus!
