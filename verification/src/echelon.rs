//! The mathematics of row reduction on grids of rationals.
//!
//! A grid is a sequence of rows of equal length. This module says, as
//! specification functions, what each elementary row operation and the whole
//! reduction to reduced row-echelon form produce, including when a step
//! leaves the range of the number type (`None`).

use crate::rational::Rational;
use crate::reals::abs_real;
use vstd::prelude::*;

verus! {

/// Every entry of the row satisfies the invariant of [`Rational`].
pub open spec fn row_wf(r: Seq<Rational>) -> bool {
    forall|j: int| 0 <= j < r.len() ==> (#[trigger] r[j]).wf()
}

/// Every row has `cols` well-formed entries.
pub open spec fn grid_wf(g: Seq<Seq<Rational>>, cols: nat) -> bool {
    forall|i: int| #![trigger g[i]] 0 <= i < g.len() ==> g[i].len() == cols && row_wf(g[i])
}

/// The grid with rows `a` and `b` exchanged.
pub open spec fn swap_rows(g: Seq<Seq<Rational>>, a: int, b: int) -> Seq<Seq<Rational>> {
    g.update(a, g[b]).update(b, g[a])
}

/// The row with every entry multiplied by `s`.
pub open spec fn scale_row(row: Seq<Rational>, s: Rational) -> Option<Seq<Rational>> {
    if forall|j: int| 0 <= j < row.len() ==> (#[trigger] row[j]).spec_checked_mul(s) is Some {
        Some(Seq::new(row.len(), |j: int| row[j].spec_checked_mul(s).unwrap()))
    } else {
        None
    }
}

/// `t + s * f`.
pub open spec fn add_term(t: Rational, s: Rational, f: Rational) -> Option<Rational> {
    match s.spec_checked_mul(f) {
        Some(p) => t.spec_checked_add(p),
        None => None,
    }
}

/// `target + f * source`, entry by entry.
pub open spec fn add_scaled_row(
    target: Seq<Rational>,
    source: Seq<Rational>,
    f: Rational,
) -> Option<Seq<Rational>> {
    if forall|j: int|
        0 <= j < target.len() ==> (#[trigger] add_term(target[j], source[j], f)) is Some {
        Some(Seq::new(target.len(), |j: int| add_term(target[j], source[j], f).unwrap()))
    } else {
        None
    }
}

/// The row at which the entry of column `col` has the largest absolute value
/// among the rows `lo..hi`; among equals, the first.
pub open spec fn pivot_row(g: Seq<Seq<Rational>>, col: int, lo: int, hi: int) -> int
    decreases hi - lo,
{
    if hi - lo <= 1 {
        lo
    } else {
        let p = pivot_row(g, col, lo, hi - 1);
        if abs_real(g[p][col].value()) < abs_real(g[hi - 1][col].value()) {
            hi - 1
        } else {
            p
        }
    }
}

/// The column at which the entry of `row` has the largest absolute value
/// among the columns `lo..hi`; among equals, the first.
pub open spec fn pivot_col(row: Seq<Rational>, lo: int, hi: int) -> int
    decreases hi - lo,
{
    if hi - lo <= 1 {
        lo
    } else {
        let p = pivot_col(row, lo, hi - 1);
        if abs_real(row[p].value()) < abs_real(row[hi - 1].value()) {
            hi - 1
        } else {
            p
        }
    }
}

/// The row scaled so that its entry in column `col` becomes one.
pub open spec fn normalize_row(row: Seq<Rational>, col: int) -> Option<Seq<Rational>> {
    if row[col].value() == 1 as real {
        Some(row)
    } else {
        match Rational::spec_from_integer(1).spec_checked_div(row[col]) {
            Some(inv) => scale_row(row, inv),
            None => None,
        }
    }
}

/// `target` with its entry in column `col` cancelled by a multiple of
/// `source`.
pub open spec fn clear_entry(target: Seq<Rational>, source: Seq<Rational>, col: int) -> Option<
    Seq<Rational>,
> {
    if target[col].value() == 0 as real {
        Some(target)
    } else {
        add_scaled_row(target, source, target[col].spec_neg())
    }
}

/// The grid in which each of the rows `lo..hi` has had its entry in column
/// `col` cancelled by a multiple of row `pivot`.
pub open spec fn eliminate_rows(g: Seq<Seq<Rational>>, pivot: int, col: int, lo: int, hi: int) -> Option<
    Seq<Seq<Rational>>,
> {
    if forall|k: int| lo <= k < hi ==> (#[trigger] clear_entry(g[k], g[pivot], col)) is Some {
        Some(
            Seq::new(
                g.len(),
                |k: int|
                    if lo <= k < hi {
                        clear_entry(g[k], g[pivot], col).unwrap()
                    } else {
                        g[k]
                    },
            ),
        )
    } else {
        None
    }
}

/// One pivot step of the forward pass at row `row` and column `col`, for a
/// column that holds a nonzero entry at or below `row`.
pub open spec fn pivot_step(g: Seq<Seq<Rational>>, row: int, col: int) -> Option<Seq<Seq<Rational>>> {
    let swapped = swap_rows(g, row, pivot_row(g, col, row, g.len() as int));
    match normalize_row(swapped[row], col) {
        Some(r) => eliminate_rows(swapped.update(row, r), row, col, row + 1, g.len() as int),
        None => None,
    }
}

/// The forward pass from row `row` and column `col` on: the grid in echelon
/// form and the number of pivots.
pub open spec fn forward_pass(g: Seq<Seq<Rational>>, cols: nat, row: nat, col: nat) -> Option<
    (Seq<Seq<Rational>>, nat),
>
    decreases cols - col,
{
    if row >= g.len() || col >= cols {
        Some((g, row))
    } else if g[pivot_row(g, col as int, row as int, g.len() as int)][col as int].value()
        == 0 as real {
        forward_pass(g, cols, row, col + 1)
    } else {
        match pivot_step(g, row as int, col as int) {
            Some(h) => forward_pass(h, cols, row + 1, col + 1),
            None => None,
        }
    }
}

/// The first column at or after `from` in which the row is not zero, or the
/// length of the row.
pub open spec fn first_nonzero(row: Seq<Rational>, from: int) -> int
    decreases row.len() - from,
{
    if from >= row.len() {
        row.len() as int
    } else if row[from].value() != 0 as real {
        from
    } else {
        first_nonzero(row, from + 1)
    }
}

/// The backward pass from pivot row `row` on, whose pivot lies at or after
/// column `col`.
pub open spec fn backward_pass(g: Seq<Seq<Rational>>, rank: nat, row: nat, col: nat) -> Option<
    Seq<Seq<Rational>>,
>
    decreases rank - row,
{
    if row >= rank || row >= g.len() {
        Some(g)
    } else {
        let c = first_nonzero(g[row as int], col as int);
        if c >= g[row as int].len() {
            Some(g)
        } else {
            match eliminate_rows(g, row as int, c, 0, row as int) {
                Some(h) => backward_pass(h, rank, row + 1, (c + 1) as nat),
                None => None,
            }
        }
    }
}

/// The reduced row-echelon form of the grid and its rank, or `None` where a
/// step of the reduction leaves the range of the number type.
pub open spec fn reduce(g: Seq<Seq<Rational>>, cols: nat) -> Option<(Seq<Seq<Rational>>, nat)> {
    match forward_pass(g, cols, 0, 0) {
        Some((h, rank)) => match backward_pass(h, rank, 0, 0) {
            Some(r) => Some((r, rank)),
            None => None,
        },
        None => None,
    }
}

} // verus!
