//! Matrices and numbers in text.
use crate::density_matrix::DensityMatrix;
use crate::laws::calls::whole;
use crate::matrix::entry;
use crate::scalar::Scalar;
use crate::text::{cells_text, decimal, decimal_text, digit, rows_text};
use vstd::arithmetic::power2::*;
use vstd::prelude::*;

verus! {

/// Pieces of text one after the other, with `between` between any two of them.
pub open spec fn joined(pieces: Seq<Seq<char>>, between: Seq<char>) -> Seq<char>
    decreases pieces.len(),
{
    if pieces.len() == 0 {
        seq![]
    } else if pieces.len() == 1 {
        pieces[0]
    } else {
        joined(pieces.drop_last(), between) + between + pieces.last()
    }
}

/// How pieces are joined.
pub proof fn law_pieces_are_joined(
    pieces: Seq<Seq<char>>,
    piece: Seq<char>,
    between: Seq<char>,
)
    ensures
        joined(seq![piece], between) == piece,
        pieces.len() > 0 ==> joined(pieces.push(piece), between) == joined(pieces, between)
            + between + piece,
{
    assert(pieces.push(piece).drop_last() =~= pieces);
}

/// The texts of the entries in the row `i` of a matrix with `d` columns.
pub open spec fn cells_of<T: Scalar>(m: Seq<T>, d: nat, i: int) -> Seq<Seq<char>> {
    Seq::new(d, |j: int| m[i * d + j].text_spec())
}

/// The lines of a matrix with `d` rows: the entries of a row in brackets.
pub open spec fn lines_of<T: Scalar>(m: Seq<T>, d: nat) -> Seq<Seq<char>> {
    Seq::new(d, |i: int| "["@ + joined(cells_of(m, d, i), ", "@) + "]"@)
}

/// The first cells of a row.
proof fn lemma_cells_joined<T: Scalar>(m: Seq<T>, d: nat, i: int, j: nat)
    requires
        j <= d,
    ensures
        cells_text(m, d, i, j) == joined(cells_of(m, d, i).take(j as int), ", "@) + if 0 < j < d {
            ", "@
        } else {
            seq![]
        },
    decreases j,
{
    let cells = cells_of(m, d, i);
    if j == 0 {
        assert(cells_text(m, d, i, j) =~= joined(cells.take(0), ", "@) + Seq::<char>::empty());
    } else {
        let k = (j - 1) as nat;
        let text = cells[k as int];
        lemma_cells_joined(m, d, i, k);
        assert(cells.take(j as int) =~= cells.take(k as int).push(text));
        assert(entry(m, d, i, j - 1).text_spec() == text);
        law_pieces_are_joined(cells.take(k as int), text, ", "@);
        if k == 0 {
            assert(cells.take(j as int) =~= seq![text]);
            assert(cells_text(m, d, i, 0) =~= Seq::<char>::empty());
        }
        assert(cells_text(m, d, i, j) =~= joined(cells.take(j as int), ", "@) + if j < d {
            ", "@
        } else {
            seq![]
        });
    }
}

/// The first lines of a matrix.
proof fn lemma_lines_joined<T: Scalar>(m: Seq<T>, d: nat, i: nat)
    requires
        i <= d,
    ensures
        rows_text(m, d, i) == joined(lines_of(m, d).take(i as int), "\n"@) + if i == 0 {
            seq![]
        } else if i < d {
            "\n"@
        } else {
            "]"@ + "\n"@
        },
    decreases i,
{
    let lines = lines_of(m, d);
    if i == 0 {
        assert(rows_text(m, d, i) =~= joined(lines.take(0), "\n"@) + Seq::<char>::empty());
    } else {
        let k = (i - 1) as nat;
        let line = lines[k as int];
        let cells = cells_of(m, d, k as int);
        lemma_lines_joined(m, d, k);
        lemma_cells_joined(m, d, k as int, d);
        assert(cells.take(d as int) =~= cells);
        assert(cells_text(m, d, k as int, d) =~= joined(cells, ", "@));
        assert(lines.take(i as int) =~= lines.take(k as int).push(line));
        law_pieces_are_joined(lines.take(k as int), line, "\n"@);
        if k == 0 {
            assert(lines.take(i as int) =~= seq![line]);
            assert(rows_text(m, d, 0) =~= Seq::<char>::empty());
        }
        assert(rows_text(m, d, i) =~= joined(lines.take(i as int), "\n"@) + if i < d {
            "\n"@
        } else {
            "]"@ + "\n"@
        });
    }
}

/// A matrix in text: its lines in brackets, and two empty lines after them. The
/// place `j` of the line `i` shows the entry in row `i` and column `j`.
pub proof fn law_print_shows_rows<T: Scalar>(m: &DensityMatrix<T>, r: String)
    requires
        whole(*m),
        call_ensures(DensityMatrix::<T>::print, (m,), r),
    ensures
        r@ == "["@ + joined(
            Seq::new(
                m.size as nat,
                |i: int|
                    "["@ + joined(
                        Seq::new(m.size as nat, |j: int| m.data.data@[i * m.size + j].text_spec()),
                        ", "@,
                    ) + "]"@,
            ),
            "\n"@,
        ) + "]\n\n\n"@,
        call_requires(DensityMatrix::<T>::print, (m,)),
{
    let d = m.size as nat;
    let a = m.data.data@;
    let lines = lines_of(a, d);
    lemma_pow2_pos(m.nqubits as nat);
    lemma_lines_joined(a, d, d);
    assert(lines.take(d as int) =~= lines);
    reveal_strlit("]");
    reveal_strlit("\n");
    reveal_strlit("\n\n");
    reveal_strlit("]\n\n\n");
    let shown = Seq::new(
        d,
        |i: int|
            "["@ + joined(
                Seq::new(m.size as nat, |j: int| m.data.data@[i * m.size + j].text_spec()),
                ", "@,
            ) + "]"@,
    );
    assert forall|i: int| 0 <= i < d implies lines[i] == shown[i] by {
        assert(cells_of(a, d, i) =~= Seq::new(
            m.size as nat,
            |j: int| m.data.data@[i * m.size + j].text_spec(),
        ));
    }
    assert(lines =~= shown);
    assert(r@ =~= "["@ + joined(shown, "\n"@) + "]\n\n\n"@);
}

/// A number in decimal digits: its last character is its last digit, and what stands
/// before is the number without that digit.
pub proof fn law_decimal_digits(n: usize, r: String, shorter: String)
    requires
        call_ensures(decimal_text, (n,), r),
        call_ensures(decimal_text, ((n / 10) as usize,), shorter),
    ensures
        r@.len() > 0,
        r@.last() as u32 == 48 + n % 10,
        r@.drop_last() == if n < 10 {
            Seq::<char>::empty()
        } else {
            shorter@
        },
        call_requires(decimal_text, (n,)),
{
    assert(digit((n % 10) as nat) as u32 == 48 + n % 10);
    if n < 10 {
        assert(r@.drop_last() =~= Seq::<char>::empty());
    } else {
        assert(r@.drop_last() =~= decimal((n / 10) as nat));
    }
}

} // verus!
