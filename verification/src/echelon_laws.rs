//! What the reduction of [`crate::echelon`] achieves: the result is in
//! reduced row-echelon form, and a grid in that form is left as it is.

use crate::echelon::{
    add_scaled_row, add_term, backward_pass, clear_entry, eliminate_rows, first_nonzero,
    forward_pass, grid_wf, normalize_row, pivot_col, pivot_row, pivot_step, reduce, row_wf,
    scale_row, swap_rows,
};
use crate::rational::Rational;
use crate::reals::{
    abs_real, lemma_over_basics, lemma_over_one, lemma_times_commutes, lemma_times_negates,
    lemma_times_one, lemma_times_reciprocal, lemma_times_zero, over, times,
};
use vstd::prelude::*;

verus! {

/// A scaled row holds the products of its entries with the factor.
pub proof fn lemma_scale_row(row: Seq<Rational>, s: Rational)
    requires
        row_wf(row),
        s.wf(),
        scale_row(row, s) is Some,
    ensures
        scale_row(row, s).unwrap().len() == row.len(),
        row_wf(scale_row(row, s).unwrap()),
        forall|j: int|
            0 <= j < row.len() ==> (#[trigger] scale_row(row, s).unwrap()[j]).value() == times(
                row[j].value(),
                s.value(),
            ),
{
    let out = scale_row(row, s).unwrap();
    assert forall|j: int| 0 <= j < row.len() implies (#[trigger] out[j]).wf() && out[j].value()
        == times(row[j].value(), s.value()) by {
        row[j].lemma_checked_mul(s);
    }
}

/// `target + f * source` holds the sums of the entries of `target` and the
/// `f`-fold entries of `source`.
pub proof fn lemma_add_scaled_row(target: Seq<Rational>, source: Seq<Rational>, f: Rational)
    requires
        row_wf(target),
        row_wf(source),
        f.wf(),
        source.len() == target.len(),
        add_scaled_row(target, source, f) is Some,
    ensures
        add_scaled_row(target, source, f).unwrap().len() == target.len(),
        row_wf(add_scaled_row(target, source, f).unwrap()),
        forall|j: int|
            0 <= j < target.len() ==> (#[trigger] add_scaled_row(
                target,
                source,
                f,
            ).unwrap()[j]).value() == target[j].value() + times(source[j].value(), f.value()),
{
    let out = add_scaled_row(target, source, f).unwrap();
    assert forall|j: int| 0 <= j < target.len() implies (#[trigger] out[j]).wf() && out[j].value()
        == target[j].value() + times(source[j].value(), f.value()) by {
        assert(add_term(target[j], source[j], f) is Some);
        source[j].lemma_checked_mul(f);
        target[j].lemma_checked_add(source[j].spec_checked_mul(f).unwrap());
    }
}

/// A normalized row holds the quotients of its entries by the pivot, which
/// is not zero.
pub proof fn lemma_normalize_row(row: Seq<Rational>, col: int)
    requires
        row_wf(row),
        0 <= col < row.len(),
        normalize_row(row, col) is Some,
    ensures
        normalize_row(row, col).unwrap().len() == row.len(),
        row_wf(normalize_row(row, col).unwrap()),
        row[col].value() != 0 as real,
        forall|j: int|
            0 <= j < row.len() ==> (#[trigger] normalize_row(row, col).unwrap()[j]).value() == over(
                row[j].value(),
                row[col].value(),
            ),
{
    let out = normalize_row(row, col).unwrap();
    let p = row[col].value();
    if p == 1 as real {
        assert forall|j: int| 0 <= j < row.len() implies (#[trigger] out[j]).value() == over(
            row[j].value(),
            p,
        ) by {
            lemma_over_one(row[j].value());
        }
    } else {
        let one = Rational::spec_from_integer(1);
        Rational::lemma_from_integer(1);
        one.lemma_checked_div(row[col]);
        let inv = one.spec_checked_div(row[col]).unwrap();
        lemma_scale_row(row, inv);
        assert forall|j: int| 0 <= j < row.len() implies (#[trigger] out[j]).value() == over(
            row[j].value(),
            p,
        ) by {
            lemma_times_reciprocal(row[j].value(), p);
        }
    }
}

/// A cleared row holds its entries less the multiples of the source that
/// cancel column `col`.
pub proof fn lemma_clear_entry(target: Seq<Rational>, source: Seq<Rational>, col: int)
    requires
        row_wf(target),
        row_wf(source),
        source.len() == target.len(),
        0 <= col < target.len(),
        clear_entry(target, source, col) is Some,
    ensures
        clear_entry(target, source, col).unwrap().len() == target.len(),
        row_wf(clear_entry(target, source, col).unwrap()),
        forall|j: int|
            0 <= j < target.len() ==> (#[trigger] clear_entry(target, source, col).unwrap()[j]).value()
                == target[j].value() - times(target[col].value(), source[j].value()),
{
    let out = clear_entry(target, source, col).unwrap();
    let t = target[col].value();
    if t == 0 as real {
        assert forall|j: int| 0 <= j < target.len() implies (#[trigger] out[j]).value()
            == target[j].value() - times(t, source[j].value()) by {
            lemma_times_zero(t, source[j].value());
        }
    } else {
        target[col].lemma_neg();
        lemma_add_scaled_row(target, source, target[col].spec_neg());
        assert forall|j: int| 0 <= j < target.len() implies (#[trigger] out[j]).value()
            == target[j].value() - times(t, source[j].value()) by {
            lemma_times_negates(source[j].value(), t);
            lemma_times_commutes(source[j].value(), t);
        }
    }
}

/// Elimination leaves the rows outside `lo..hi` as they are and clears
/// column `col` of the rows inside.
pub proof fn lemma_eliminate_rows(
    g: Seq<Seq<Rational>>,
    cols: nat,
    pivot: int,
    col: int,
    lo: int,
    hi: int,
)
    requires
        grid_wf(g, cols),
        0 <= lo <= hi <= g.len(),
        0 <= pivot < g.len(),
        !(lo <= pivot < hi),
        0 <= col < cols,
        eliminate_rows(g, pivot, col, lo, hi) is Some,
    ensures
        eliminate_rows(g, pivot, col, lo, hi).unwrap().len() == g.len(),
        grid_wf(eliminate_rows(g, pivot, col, lo, hi).unwrap(), cols),
        forall|k: int|
            0 <= k < g.len() && !(lo <= k < hi) ==> (#[trigger] eliminate_rows(
                g,
                pivot,
                col,
                lo,
                hi,
            ).unwrap()[k]) == g[k],
        forall|k: int, j: int|
            lo <= k < hi && 0 <= j < cols ==> (#[trigger] eliminate_rows(
                g,
                pivot,
                col,
                lo,
                hi,
            ).unwrap()[k][j]).value() == g[k][j].value() - times(
                g[k][col].value(),
                g[pivot][j].value(),
            ),
{
    let h = eliminate_rows(g, pivot, col, lo, hi).unwrap();
    assert forall|k: int| #![trigger h[k]] 0 <= k < h.len() implies h[k].len() == cols && row_wf(
        h[k],
    ) by {
        if lo <= k < hi {
            assert(clear_entry(g[k], g[pivot], col) is Some);
            lemma_clear_entry(g[k], g[pivot], col);
        }
    }
    assert forall|k: int, j: int| lo <= k < hi && 0 <= j < cols implies (#[trigger] h[k][j]).value()
        == g[k][j].value() - times(g[k][col].value(), g[pivot][j].value()) by {
        assert(clear_entry(g[k], g[pivot], col) is Some);
        lemma_clear_entry(g[k], g[pivot], col);
    }
}

/// The pivot row holds an entry of largest absolute value in its column
/// among the rows `lo..hi`, and is the first row to do so.
pub proof fn lemma_pivot_row(g: Seq<Seq<Rational>>, col: int, lo: int, hi: int)
    requires
        lo < hi,
    ensures
        lo <= pivot_row(g, col, lo, hi) < hi,
        forall|k: int|
            lo <= k < hi ==> abs_real((#[trigger] g[k])[col].value()) <= abs_real(
                g[pivot_row(g, col, lo, hi)][col].value(),
            ),
        forall|k: int|
            lo <= k < pivot_row(g, col, lo, hi) ==> abs_real((#[trigger] g[k])[col].value())
                < abs_real(g[pivot_row(g, col, lo, hi)][col].value()),
    decreases hi - lo,
{
    if hi - lo > 1 {
        lemma_pivot_row(g, col, lo, hi - 1);
    }
}

/// The pivot column holds an entry of largest absolute value in its row
/// among the columns `lo..hi`, and is the first column to do so.
pub proof fn lemma_pivot_col(row: Seq<Rational>, lo: int, hi: int)
    requires
        lo < hi,
    ensures
        lo <= pivot_col(row, lo, hi) < hi,
        forall|k: int|
            lo <= k < hi ==> abs_real((#[trigger] row[k]).value()) <= abs_real(
                row[pivot_col(row, lo, hi)].value(),
            ),
        forall|k: int|
            lo <= k < pivot_col(row, lo, hi) ==> abs_real((#[trigger] row[k]).value()) < abs_real(
                row[pivot_col(row, lo, hi)].value(),
            ),
    decreases hi - lo,
{
    if hi - lo > 1 {
        lemma_pivot_col(row, lo, hi - 1);
    }
}

/// The first nonzero column at or after `from` has only zeros between
/// `from` and itself.
pub proof fn lemma_first_nonzero(row: Seq<Rational>, from: int)
    requires
        0 <= from <= row.len(),
    ensures
        from <= first_nonzero(row, from) <= row.len(),
        forall|j: int| from <= j < first_nonzero(row, from) ==> (#[trigger] row[j]).value() == 0 as real,
        first_nonzero(row, from) < row.len() ==> row[first_nonzero(row, from)].value() != 0 as real,
    decreases row.len() - from,
{
    if from < row.len() && row[from].value() == 0 as real {
        lemma_first_nonzero(row, from + 1);
    }
}

/// A column preceded by zeros from `from` on, and itself not zero or the
/// end of the row, is the first nonzero column.
pub proof fn lemma_first_nonzero_is(row: Seq<Rational>, from: int, c: int)
    requires
        0 <= from <= c <= row.len(),
        forall|j: int| from <= j < c ==> (#[trigger] row[j]).value() == 0 as real,
        c < row.len() ==> row[c].value() != 0 as real,
    ensures
        first_nonzero(row, from) == c,
    decreases c - from,
{
    if from < c {
        assert(row[from].value() == 0 as real);
        lemma_first_nonzero_is(row, from + 1, c);
    }
}

/// The column of the first nonzero entry of the row, or its length.
pub open spec fn lead(row: Seq<Rational>) -> int {
    first_nonzero(row, 0)
}

/// The state of the forward pass before row `row` and column `col`: the
/// rows above `row` are in echelon form with pivots of one before column
/// `col`, zero below their pivots, and the rows from `row` on are zero
/// before column `col`.
pub open spec fn echelon_upto(g: Seq<Seq<Rational>>, row: int, col: int) -> bool {
    &&& forall|r: int|
        #![trigger g[r]]
        0 <= r < row ==> 0 <= lead(g[r]) < col && g[r][lead(g[r])].value() == 1 as real
    &&& forall|r1: int, r2: int|
        #![trigger g[r1], g[r2]]
        0 <= r1 < r2 < row ==> lead(g[r1]) < lead(g[r2])
    &&& forall|r: int, k: int|
        #![trigger g[r], g[k]]
        0 <= r < row && r < k < g.len() ==> g[k][lead(g[r])].value() == 0 as real
    &&& forall|k: int, c: int|
        #![trigger g[k][c]]
        row <= k < g.len() && 0 <= c < col ==> g[k][c].value() == 0 as real
}

/// The grid is in row-echelon form with `rank` pivots of one: the pivots
/// move right from row to row, the entries below each are zero, and the
/// rows after them are zero.
pub open spec fn is_echelon(g: Seq<Seq<Rational>>, cols: nat, rank: nat) -> bool {
    &&& rank <= g.len()
    &&& forall|r: int|
        #![trigger g[r]]
        0 <= r < rank ==> 0 <= lead(g[r]) < cols && g[r][lead(g[r])].value() == 1 as real
    &&& forall|r: int| #![trigger g[r]] rank <= r < g.len() ==> lead(g[r]) == cols
    &&& forall|r1: int, r2: int|
        #![trigger g[r1], g[r2]]
        0 <= r1 < r2 < rank ==> lead(g[r1]) < lead(g[r2])
    &&& forall|r: int, k: int|
        #![trigger g[r], g[k]]
        0 <= r < rank && r < k < g.len() ==> g[k][lead(g[r])].value() == 0 as real
}

/// The grid is in reduced row-echelon form with `rank` pivots: in echelon
/// form, and each pivot is the only nonzero entry of its column.
pub open spec fn is_rref(g: Seq<Seq<Rational>>, cols: nat, rank: nat) -> bool {
    &&& is_echelon(g, cols, rank)
    &&& forall|r: int, k: int|
        #![trigger g[r], g[k]]
        0 <= r < rank && 0 <= k < r ==> g[k][lead(g[r])].value() == 0 as real
}

/// A column whose pivot is zero is zero from the pivot's range of rows on,
/// so the forward pass may move on to the next column.
pub proof fn lemma_skip_column(g: Seq<Seq<Rational>>, row: int, col: int)
    requires
        0 <= row < g.len(),
        echelon_upto(g, row, col),
        g[pivot_row(g, col, row, g.len() as int)][col].value() == 0 as real,
    ensures
        echelon_upto(g, row, col + 1),
{
    lemma_pivot_row(g, col, row, g.len() as int);
    assert forall|k: int, c: int|
        #![trigger g[k][c]]
        row <= k < g.len() && 0 <= c < col + 1 implies g[k][c].value() == 0 as real by {
        if c == col {
            assert(abs_real(g[k][col].value()) <= 0 as real);
        }
    }
}

/// One pivot step takes the state of the forward pass to the next row and
/// column.
pub proof fn lemma_pivot_step(g: Seq<Seq<Rational>>, cols: nat, row: int, col: int)
    requires
        grid_wf(g, cols),
        0 <= row < g.len(),
        0 <= col < cols,
        echelon_upto(g, row, col),
        pivot_step(g, row, col) is Some,
    ensures
        pivot_step(g, row, col).unwrap().len() == g.len(),
        grid_wf(pivot_step(g, row, col).unwrap(), cols),
        echelon_upto(pivot_step(g, row, col).unwrap(), row + 1, col + 1),
{
    let len = g.len() as int;
    let p = pivot_row(g, col, row, len);
    lemma_pivot_row(g, col, row, len);
    let swapped = swap_rows(g, row, p);
    assert(grid_wf(swapped, cols));
    assert(swapped[row] == g[p]);
    lemma_normalize_row(swapped[row], col);
    let nr = normalize_row(swapped[row], col).unwrap();
    let pv = g[p][col].value();
    let s2 = swapped.update(row, nr);
    assert(grid_wf(s2, cols));
    lemma_eliminate_rows(s2, cols, row, col, row + 1, len);
    let h = eliminate_rows(s2, row, col, row + 1, len).unwrap();
    assert(h == pivot_step(g, row, col).unwrap());
    // the new pivot row
    assert forall|j: int| 0 <= j < col implies (#[trigger] nr[j]).value() == 0 as real by {
        assert(g[p][j].value() == 0 as real);
        lemma_over_basics(g[p][j].value(), pv);
    }
    assert(nr[col].value() == 1 as real) by {
        lemma_over_basics(pv, pv);
    }
    lemma_first_nonzero_is(nr, 0, col);
    assert(h[row] == nr);
    assert(lead(h[row]) == col);
    // the rows above are as they were
    assert forall|r: int| 0 <= r < row implies (#[trigger] h[r]) == g[r] by {
        assert(s2[r] == g[r]);
    }
    // the rows below are zero up to and with the pivot column
    assert forall|k: int, c: int|
        #![trigger h[k][c]]
        row + 1 <= k < len && 0 <= c < col + 1 implies h[k][c].value() == 0 as real by {
        let src = if k == p {
            row
        } else {
            k
        };
        assert(s2[k] == g[src]);
        assert(h[k][c].value() == s2[k][c].value() - times(s2[k][col].value(), s2[row][c].value()));
        if c < col {
            assert(g[src][c].value() == 0 as real);
            lemma_times_zero(s2[k][col].value(), nr[c].value());
        } else {
            lemma_times_one(s2[k][col].value());
        }
    }
    assert forall|r: int|
        #![trigger h[r]]
        0 <= r < row + 1 implies 0 <= lead(h[r]) < col + 1 && h[r][lead(h[r])].value()
        == 1 as real by {
        if r < row {
            assert(h[r] == g[r]);
        }
    }
    assert forall|r1: int, r2: int|
        #![trigger h[r1], h[r2]]
        0 <= r1 < r2 < row + 1 implies lead(h[r1]) < lead(h[r2]) by {
        assert(h[r1] == g[r1]);
        if r2 < row {
            assert(h[r2] == g[r2]);
        }
    }
    assert forall|r: int, k: int|
        #![trigger h[r], h[k]]
        0 <= r < row + 1 && r < k < len implies h[k][lead(h[r])].value() == 0 as real by {
        if r < row {
            assert(h[r] == g[r]);
            let l = lead(g[r]);
            if k < row {
                assert(h[k] == g[k]);
            } else if k == row {
                assert(nr[l].value() == 0 as real);
            } else {
                assert(h[k][l].value() == 0 as real);
            }
        } else {
            assert(h[k][col].value() == 0 as real);
        }
    }
}

/// The forward pass ends in echelon form: a grid of the same shape, with as
/// many pivots as the rank it reports.
pub proof fn lemma_forward_pass(g: Seq<Seq<Rational>>, cols: nat, row: nat, col: nat)
    requires
        grid_wf(g, cols),
        row <= g.len(),
        col <= cols,
        echelon_upto(g, row as int, col as int),
        forward_pass(g, cols, row, col) is Some,
    ensures
        forward_pass(g, cols, row, col).unwrap().0.len() == g.len(),
        grid_wf(forward_pass(g, cols, row, col).unwrap().0, cols),
        is_echelon(
            forward_pass(g, cols, row, col).unwrap().0,
            cols,
            forward_pass(g, cols, row, col).unwrap().1,
        ),
        row <= forward_pass(g, cols, row, col).unwrap().1 <= g.len(),
        forward_pass(g, cols, row, col).unwrap().1 - row <= cols - col,
    decreases cols - col,
{
    if row >= g.len() || col >= cols {
        assert forall|r: int| #![trigger g[r]] row <= r < g.len() implies lead(g[r]) == cols by {
            lemma_first_nonzero_is(g[r], 0, cols as int);
        }
    } else if g[pivot_row(g, col as int, row as int, g.len() as int)][col as int].value()
        == 0 as real {
        lemma_skip_column(g, row as int, col as int);
        lemma_forward_pass(g, cols, row, col + 1);
    } else {
        lemma_pivot_step(g, cols, row as int, col as int);
        lemma_forward_pass(pivot_step(g, row as int, col as int).unwrap(), cols, row + 1, col + 1);
    }
}

/// The state of the backward pass before pivot row `row`: the grid is in
/// echelon form and the pivots of the rows above `row` are alone in their
/// columns.
pub open spec fn reduced_upto(g: Seq<Seq<Rational>>, cols: nat, rank: nat, row: int) -> bool {
    &&& is_echelon(g, cols, rank)
    &&& forall|r: int, k: int|
        #![trigger g[r], g[k]]
        0 <= r < row && 0 <= k < r ==> g[k][lead(g[r])].value() == 0 as real
}

/// The first nonzero column from `from` on is the leading column, for a
/// start at or before it.
pub proof fn lemma_first_nonzero_from(row: Seq<Rational>, from: int)
    requires
        0 <= from <= lead(row),
    ensures
        first_nonzero(row, from) == lead(row),
{
    lemma_first_nonzero(row, 0);
    lemma_first_nonzero_is(row, from, lead(row));
}

/// One step of the backward pass clears the column of pivot row `row` above
/// it and keeps every leading column.
pub proof fn lemma_backward_step(g: Seq<Seq<Rational>>, cols: nat, rank: nat, row: int)
    requires
        grid_wf(g, cols),
        0 <= row < rank,
        reduced_upto(g, cols, rank, row),
        eliminate_rows(g, row, lead(g[row]), 0, row) is Some,
    ensures
        eliminate_rows(g, row, lead(g[row]), 0, row).unwrap().len() == g.len(),
        grid_wf(eliminate_rows(g, row, lead(g[row]), 0, row).unwrap(), cols),
        reduced_upto(eliminate_rows(g, row, lead(g[row]), 0, row).unwrap(), cols, rank, row + 1),
        forall|r: int|
            0 <= r < g.len() ==> lead(#[trigger] eliminate_rows(g, row, lead(g[row]), 0, row).unwrap()[r])
                == lead(g[r]),
{
    let c = lead(g[row]);
    lemma_eliminate_rows(g, cols, row, c, 0, row);
    let h = eliminate_rows(g, row, c, 0, row).unwrap();
    lemma_first_nonzero(g[row], 0);
    // the rows above keep their entries up to their pivots
    assert forall|k: int, j: int| 0 <= k < row && 0 <= j < c implies (#[trigger] h[k][j]).value()
        == g[k][j].value() by {
        assert(g[row][j].value() == 0 as real);
        lemma_times_zero(g[k][c].value(), g[row][j].value());
    }
    assert forall|r: int| 0 <= r < g.len() implies lead(#[trigger] h[r]) == lead(g[r]) by {
        if r < row {
            let l = lead(g[r]);
            lemma_first_nonzero(g[r], 0);
            assert(l < c);
            assert forall|j: int| 0 <= j < l implies (#[trigger] h[r][j]).value() == 0 as real by {
                assert(g[r][j].value() == 0 as real);
            }
            assert(h[r][l].value() == g[r][l].value());
            lemma_first_nonzero_is(h[r], 0, l);
        } else {
            assert(h[r] == g[r]);
        }
    }
    // the pivot column of `row` is cleared above it
    assert forall|k: int| 0 <= k < row implies (#[trigger] h[k])[c].value() == 0 as real by {
        assert(h[k][c].value() == g[k][c].value() - times(g[k][c].value(), g[row][c].value()));
        lemma_times_one(g[k][c].value());
    }
    // the pivot columns of the rows above `row` are untouched
    assert forall|r: int, k: int| 0 <= r < row && 0 <= k < row implies (#[trigger] h[k])[lead(
        #[trigger] g[r],
    )].value() == g[k][lead(g[r])].value() by {
        let l = lead(g[r]);
        assert(g[row][l].value() == 0 as real);
        assert(h[k][l].value() == g[k][l].value() - times(g[k][c].value(), g[row][l].value()));
        lemma_times_zero(g[k][c].value(), g[row][l].value());
    }
    assert forall|r: int|
        #![trigger h[r]]
        0 <= r < rank implies 0 <= lead(h[r]) < cols && h[r][lead(h[r])].value() == 1 as real by {
        if r < row {
            assert(lead(g[r]) < c);
            assert(h[r][lead(g[r])].value() == g[r][lead(g[r])].value());
        } else {
            assert(h[r] == g[r]);
        }
    }
    assert forall|r: int| #![trigger h[r]] rank <= r < h.len() implies lead(h[r]) == cols by {
        assert(h[r] == g[r]);
    }
    assert forall|r1: int, r2: int|
        #![trigger h[r1], h[r2]]
        0 <= r1 < r2 < rank implies lead(h[r1]) < lead(h[r2]) by {
        assert(lead(h[r1]) == lead(g[r1]));
        assert(lead(h[r2]) == lead(g[r2]));
    }
    assert forall|r: int, k: int|
        #![trigger h[r], h[k]]
        0 <= r < rank && r < k < h.len() implies h[k][lead(h[r])].value() == 0 as real by {
        assert(lead(h[r]) == lead(g[r]));
        if k < row {
            assert(h[k][lead(g[r])].value() == g[k][lead(g[r])].value());
        } else {
            assert(h[k] == g[k]);
        }
    }
    assert forall|r: int, k: int|
        #![trigger h[r], h[k]]
        0 <= r < row + 1 && 0 <= k < r implies h[k][lead(h[r])].value() == 0 as real by {
        assert(lead(h[r]) == lead(g[r]));
        if r < row {
            assert(h[k][lead(g[r])].value() == g[k][lead(g[r])].value());
        } else {
            assert(h[k][c].value() == 0 as real);
        }
    }
}

/// The backward pass ends in reduced row-echelon form.
pub proof fn lemma_backward_pass(g: Seq<Seq<Rational>>, cols: nat, rank: nat, row: nat, col: nat)
    requires
        grid_wf(g, cols),
        row <= rank,
        reduced_upto(g, cols, rank, row as int),
        row < rank ==> col <= lead(g[row as int]),
        backward_pass(g, rank, row, col) is Some,
    ensures
        backward_pass(g, rank, row, col).unwrap().len() == g.len(),
        grid_wf(backward_pass(g, rank, row, col).unwrap(), cols),
        is_rref(backward_pass(g, rank, row, col).unwrap(), cols, rank),
    decreases rank - row,
{
    if row < rank {
        lemma_first_nonzero_from(g[row as int], col as int);
        let c = lead(g[row as int]);
        assert(c < cols);
        lemma_backward_step(g, cols, rank, row as int);
        let h = eliminate_rows(g, row as int, c, 0, row as int).unwrap();
        if row + 1 < rank {
            assert(lead(h[row as int + 1]) == lead(g[row as int + 1]));
            assert(lead(g[row as int]) < lead(g[row as int + 1]));
        }
        lemma_backward_pass(h, cols, rank, row + 1, (c + 1) as nat);
    }
}

/// The reduction ends in reduced row-echelon form, with as many pivots as
/// the rank it reports, on a grid of the same shape.
pub proof fn lemma_reduce_is_rref(g: Seq<Seq<Rational>>, cols: nat)
    requires
        grid_wf(g, cols),
        reduce(g, cols) is Some,
    ensures
        reduce(g, cols).unwrap().0.len() == g.len(),
        grid_wf(reduce(g, cols).unwrap().0, cols),
        is_rref(reduce(g, cols).unwrap().0, cols, reduce(g, cols).unwrap().1),
        reduce(g, cols).unwrap().1 <= g.len(),
        reduce(g, cols).unwrap().1 <= cols,
{
    lemma_forward_pass(g, cols, 0, 0);
    let (h, rank) = forward_pass(g, cols, 0, 0).unwrap();
    lemma_backward_pass(h, cols, rank, 0, 0);
}

/// Elimination by a pivot whose column is already zero in the rows `lo..hi`
/// changes nothing.
pub proof fn lemma_eliminate_nothing(g: Seq<Seq<Rational>>, pivot: int, col: int, lo: int, hi: int)
    requires
        0 <= lo <= hi <= g.len(),
        forall|k: int| lo <= k < hi ==> (#[trigger] g[k])[col].value() == 0 as real,
    ensures
        eliminate_rows(g, pivot, col, lo, hi) == Some(g),
{
    assert forall|k: int| lo <= k < hi implies (#[trigger] clear_entry(g[k], g[pivot], col)) == Some(
        g[k],
    ) by {
        assert(g[k][col].value() == 0 as real);
    }
    assert(eliminate_rows(g, pivot, col, lo, hi).unwrap() =~= g);
}

/// In reduced row-echelon form the rows from `row` on are zero in every
/// column before the pivot of `row`, and in every column where `row` is past
/// the last pivot.
pub proof fn lemma_zero_before_pivot(g: Seq<Seq<Rational>>, cols: nat, rank: nat, row: int, col: int)
    requires
        grid_wf(g, cols),
        is_rref(g, cols, rank),
        0 <= row <= rank,
        0 <= col < cols,
        row < rank ==> col < lead(g[row]),
    ensures
        forall|k: int| row <= k < g.len() ==> (#[trigger] g[k])[col].value() == 0 as real,
{
    assert forall|k: int| row <= k < g.len() implies (#[trigger] g[k])[col].value() == 0 as real by {
        lemma_first_nonzero(g[k], 0);
        if k < rank && row < k {
            assert(lead(g[row]) < lead(g[k]));
        }
        assert(col < lead(g[k]));
    }
}

/// The forward pass leaves a grid in reduced row-echelon form as it is and
/// reports its number of pivots.
pub proof fn lemma_forward_fixed(g: Seq<Seq<Rational>>, cols: nat, rank: nat, row: nat, col: nat)
    requires
        grid_wf(g, cols),
        is_rref(g, cols, rank),
        row <= rank,
        col <= cols,
        row < rank ==> col <= lead(g[row as int]),
    ensures
        forward_pass(g, cols, row, col) == Some((g, rank)),
    decreases cols - col,
{
    let len = g.len() as int;
    if row >= g.len() || col >= cols {
        if row < rank {
            assert(lead(g[row as int]) < cols);
        }
    } else {
        let p = pivot_row(g, col as int, row as int, len);
        lemma_pivot_row(g, col as int, row as int, len);
        if row < rank && col == lead(g[row as int]) {
            assert(g[row as int][col as int].value() == 1 as real);
            assert forall|k: int| row < k < len implies (#[trigger] g[k])[col as int].value()
                == 0 as real by {
                assert(g[k][lead(g[row as int])].value() == 0 as real);
            }
            if p > row {
                assert(g[p][col as int].value() == 0 as real);
                assert(abs_real(g[row as int][col as int].value()) < abs_real(
                    g[p][col as int].value(),
                ));
            }
            assert(p == row);
            assert(swap_rows(g, row as int, p) =~= g);
            assert(normalize_row(g[row as int], col as int) == Some(g[row as int]));
            assert(g.update(row as int, g[row as int]) =~= g);
            lemma_eliminate_nothing(g, row as int, col as int, row as int + 1, len);
            assert(pivot_step(g, row as int, col as int) == Some(g));
            if row + 1 < rank {
                assert(lead(g[row as int]) < lead(g[row as int + 1]));
            }
            lemma_forward_fixed(g, cols, rank, row + 1, col + 1);
        } else {
            lemma_zero_before_pivot(g, cols, rank, row as int, col as int);
            assert(g[p][col as int].value() == 0 as real);
            lemma_forward_fixed(g, cols, rank, row, col + 1);
        }
    }
}

/// The backward pass leaves a grid in reduced row-echelon form as it is.
pub proof fn lemma_backward_fixed(g: Seq<Seq<Rational>>, cols: nat, rank: nat, row: nat, col: nat)
    requires
        grid_wf(g, cols),
        is_rref(g, cols, rank),
        row <= rank,
        row < rank ==> col <= lead(g[row as int]),
    ensures
        backward_pass(g, rank, row, col) == Some(g),
    decreases rank - row,
{
    if row < rank {
        lemma_first_nonzero_from(g[row as int], col as int);
        let c = lead(g[row as int]);
        assert(c < cols);
        assert forall|k: int| 0 <= k < row implies (#[trigger] g[k])[c].value() == 0 as real by {
            assert(g[k][lead(g[row as int])].value() == 0 as real);
        }
        lemma_eliminate_nothing(g, row as int, c, 0, row as int);
        if row + 1 < rank {
            assert(lead(g[row as int]) < lead(g[row as int + 1]));
        }
        lemma_backward_fixed(g, cols, rank, row + 1, (c + 1) as nat);
    }
}

/// The reduction leaves a grid in reduced row-echelon form as it is and
/// reports its number of pivots.
pub proof fn lemma_reduce_fixed(g: Seq<Seq<Rational>>, cols: nat, rank: nat)
    requires
        grid_wf(g, cols),
        is_rref(g, cols, rank),
    ensures
        reduce(g, cols) == Some((g, rank)),
{
    if 0 < rank {
        lemma_first_nonzero(g[0], 0);
    }
    lemma_forward_fixed(g, cols, rank, 0, 0);
    lemma_backward_fixed(g, cols, rank, 0, 0);
}

/// Reducing twice gives what reducing once gives: the same grid and the same
/// rank.
pub proof fn lemma_reduce_idempotent(g: Seq<Seq<Rational>>, cols: nat)
    requires
        grid_wf(g, cols),
        reduce(g, cols) is Some,
    ensures
        reduce(reduce(g, cols).unwrap().0, cols) == Some(reduce(g, cols).unwrap()),
{
    lemma_reduce_is_rref(g, cols);
    let (h, rank) = reduce(g, cols).unwrap();
    lemma_reduce_fixed(h, cols, rank);
}

} // verus!
