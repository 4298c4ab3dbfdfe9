//! Linear systems read off the rows of a grid, and what the reduction does
//! to their solutions.
//!
//! A row of an augmented grid with `n` unknowns stands for the equation
//! `row[0]·x[0] + … + row[n-1]·x[n-1] = row[n]`. The elementary row
//! operations, and so the whole reduction, keep the set of solutions.

use crate::echelon::{
    backward_pass, eliminate_rows, first_nonzero, forward_pass, grid_wf, normalize_row, pivot_row,
    pivot_step, reduce, swap_rows,
};
use crate::echelon_laws::{
    lemma_eliminate_rows, lemma_first_nonzero, lemma_normalize_row, lemma_pivot_row,
};
use crate::rational::Rational;
use crate::reals::{
    lemma_over_basics, lemma_over_distributes, lemma_over_times, lemma_times_associates,
    lemma_times_distributes, lemma_times_one, lemma_times_zero, over, times,
};
use vstd::prelude::*;

verus! {

/// Coefficient `j` of the row times unknown `j`.
pub open spec fn term(row: Seq<Rational>, x: Seq<real>, j: int) -> real {
    times(row[j].value(), x[j])
}

/// A zero coefficient gives a zero term.
pub proof fn lemma_term_zero(row: Seq<Rational>, x: Seq<real>, j: int)
    requires
        row[j].value() == 0 as real,
    ensures
        term(row, x, j) == 0 as real,
{
    lemma_times_zero(row[j].value(), x[j]);
}

/// A zero unknown gives a zero term.
pub proof fn lemma_term_of_zero(row: Seq<Rational>, x: Seq<real>, j: int)
    requires
        x[j] == 0 as real,
    ensures
        term(row, x, j) == 0 as real,
{
    lemma_times_zero(row[j].value(), x[j]);
}

/// A coefficient of one gives the unknown as the term.
pub proof fn lemma_term_unit(row: Seq<Rational>, x: Seq<real>, j: int)
    requires
        row[j].value() == 1 as real,
    ensures
        term(row, x, j) == x[j],
{
    lemma_times_one(x[j]);
}

/// An unknown of one gives the coefficient as the term.
pub proof fn lemma_term_at_one(row: Seq<Rational>, x: Seq<real>, j: int)
    requires
        x[j] == 1 as real,
    ensures
        term(row, x, j) == row[j].value(),
{
    lemma_times_one(row[j].value());
}

/// The sum of the first `n` coefficients of the row, each times its unknown.
pub open spec fn dot(row: Seq<Rational>, x: Seq<real>, n: nat) -> real
    decreases n,
{
    if n == 0 {
        0 as real
    } else {
        dot(row, x, (n - 1) as nat) + term(row, x, n - 1)
    }
}

/// By how much `x` misses the equation of the row: left-hand side less
/// right-hand side.
pub open spec fn residual(row: Seq<Rational>, x: Seq<real>, n: nat) -> real {
    dot(row, x, n) - row[n as int].value()
}

/// `x` satisfies the equation of the row.
pub open spec fn satisfies(row: Seq<Rational>, x: Seq<real>, n: nat) -> bool {
    residual(row, x, n) == 0 as real
}

/// `x` gives a value to each of the `n` unknowns and satisfies every
/// equation of the grid.
pub open spec fn solves(g: Seq<Seq<Rational>>, x: Seq<real>, n: nat) -> bool {
    &&& x.len() == n
    &&& forall|i: int| 0 <= i < g.len() ==> satisfies(#[trigger] g[i], x, n)
}

/// The residual is linear in the row: for `c = a - f·b` entry by entry, the
/// residual of `c` is that of `a` less `f` times that of `b`.
pub proof fn lemma_residual_combination(
    a: Seq<Rational>,
    b: Seq<Rational>,
    c: Seq<Rational>,
    f: real,
    x: Seq<real>,
    n: nat,
)
    requires
        forall|j: int|
            0 <= j <= n ==> (#[trigger] c[j]).value() == a[j].value() - times(f, b[j].value()),
    ensures
        residual(c, x, n) == residual(a, x, n) - times(f, residual(b, x, n)),
{
    lemma_dot_combination(a, b, c, f, x, n);
    assert(c[n as int].value() == a[n as int].value() - times(f, b[n as int].value()));
    lemma_times_distributes(f, dot(b, x, n), b[n as int].value());
}

proof fn lemma_dot_combination(
    a: Seq<Rational>,
    b: Seq<Rational>,
    c: Seq<Rational>,
    f: real,
    x: Seq<real>,
    n: nat,
)
    requires
        forall|j: int|
            0 <= j < n ==> (#[trigger] c[j]).value() == a[j].value() - times(f, b[j].value()),
    ensures
        dot(c, x, n) == dot(a, x, n) - times(f, dot(b, x, n)),
    decreases n,
{
    if n > 0 {
        lemma_dot_combination(a, b, c, f, x, (n - 1) as nat);
        let va = a[n - 1].value();
        let vb = b[n - 1].value();
        let xn = x[n - 1];
        assert(c[n - 1].value() == va - times(f, vb));
        // (va - f·vb)·xn = va·xn - f·(vb·xn)
        lemma_times_distributes(xn, va, times(f, vb));
        lemma_times_associates(f, vb, xn);
        // f·(db + vb·xn) = f·db + f·(vb·xn)
        lemma_times_distributes(f, dot(b, x, (n - 1) as nat), times(vb, xn));
    } else {
        lemma_times_zero(f, 0 as real);
    }
}

/// The residual of a row divided by `p` is the residual divided by `p`.
pub proof fn lemma_residual_quotient(a: Seq<Rational>, c: Seq<Rational>, p: real, x: Seq<real>, n: nat)
    requires
        p != 0 as real,
        forall|j: int| 0 <= j <= n ==> (#[trigger] c[j]).value() == over(a[j].value(), p),
    ensures
        residual(c, x, n) == over(residual(a, x, n), p),
{
    lemma_dot_quotient(a, c, p, x, n);
    assert(c[n as int].value() == over(a[n as int].value(), p));
    lemma_over_distributes(dot(a, x, n), a[n as int].value(), p);
}

proof fn lemma_dot_quotient(a: Seq<Rational>, c: Seq<Rational>, p: real, x: Seq<real>, n: nat)
    requires
        p != 0 as real,
        forall|j: int| 0 <= j < n ==> (#[trigger] c[j]).value() == over(a[j].value(), p),
    ensures
        dot(c, x, n) == over(dot(a, x, n), p),
    decreases n,
{
    if n > 0 {
        lemma_dot_quotient(a, c, p, x, (n - 1) as nat);
        let va = a[n - 1].value();
        let xn = x[n - 1];
        assert(c[n - 1].value() == over(va, p));
        lemma_over_times(va, p, xn);
        lemma_over_distributes(dot(a, x, (n - 1) as nat), times(va, xn), p);
    } else {
        lemma_over_basics(0 as real, p);
    }
}

/// Exchanging two rows keeps the solutions.
pub proof fn lemma_swap_solutions(g: Seq<Seq<Rational>>, a: int, b: int, x: Seq<real>, n: nat)
    requires
        0 <= a < g.len(),
        0 <= b < g.len(),
    ensures
        solves(swap_rows(g, a, b), x, n) == solves(g, x, n),
{
    let h = swap_rows(g, a, b);
    if solves(g, x, n) {
        assert forall|i: int| 0 <= i < h.len() implies satisfies(#[trigger] h[i], x, n) by {
            if i == a {
                assert(h[i] == g[b]);
            } else if i == b {
                assert(h[i] == g[a]);
            } else {
                assert(h[i] == g[i]);
            }
        }
    }
    if solves(h, x, n) {
        assert forall|i: int| 0 <= i < g.len() implies satisfies(#[trigger] g[i], x, n) by {
            if i == a {
                assert(h[b] == g[a]);
            } else if i == b {
                assert(h[a] == g[b]);
            } else {
                assert(h[i] == g[i]);
            }
        }
    }
}

/// Scaling a row so that its pivot becomes one keeps the solutions.
pub proof fn lemma_normalize_solutions(g: Seq<Seq<Rational>>, cols: nat, row: int, col: int, x: Seq<real>, n: nat)
    requires
        grid_wf(g, cols),
        n < cols,
        0 <= row < g.len(),
        0 <= col < cols,
        normalize_row(g[row], col) is Some,
    ensures
        solves(g.update(row, normalize_row(g[row], col).unwrap()), x, n) == solves(g, x, n),
{
    let nr = normalize_row(g[row], col).unwrap();
    let h = g.update(row, nr);
    let p = g[row][col].value();
    lemma_normalize_row(g[row], col);
    lemma_residual_quotient(g[row], nr, p, x, n);
    lemma_over_basics(residual(g[row], x, n), p);
    if solves(g, x, n) {
        assert forall|i: int| 0 <= i < h.len() implies satisfies(#[trigger] h[i], x, n) by {
            if i != row {
                assert(h[i] == g[i]);
            }
        }
    }
    if solves(h, x, n) {
        assert forall|i: int| 0 <= i < g.len() implies satisfies(#[trigger] g[i], x, n) by {
            if i != row {
                assert(h[i] == g[i]);
            } else {
                assert(h[row] == nr);
            }
        }
    }
}

/// Subtracting multiples of a pivot row from other rows keeps the
/// solutions.
pub proof fn lemma_eliminate_solutions(
    g: Seq<Seq<Rational>>,
    cols: nat,
    pivot: int,
    col: int,
    lo: int,
    hi: int,
    x: Seq<real>,
    n: nat,
)
    requires
        grid_wf(g, cols),
        n < cols,
        0 <= lo <= hi <= g.len(),
        0 <= pivot < g.len(),
        !(lo <= pivot < hi),
        0 <= col < cols,
        eliminate_rows(g, pivot, col, lo, hi) is Some,
    ensures
        solves(eliminate_rows(g, pivot, col, lo, hi).unwrap(), x, n) == solves(g, x, n),
{
    let h = eliminate_rows(g, pivot, col, lo, hi).unwrap();
    lemma_eliminate_rows(g, cols, pivot, col, lo, hi);
    assert(h[pivot] == g[pivot]);
    assert forall|k: int| lo <= k < hi implies residual(#[trigger] h[k], x, n) == residual(
        g[k],
        x,
        n,
    ) - times(g[k][col].value(), residual(g[pivot], x, n)) by {
        assert forall|j: int| 0 <= j <= n implies (#[trigger] h[k][j]).value() == g[k][j].value()
            - times(g[k][col].value(), g[pivot][j].value()) by {}
        lemma_residual_combination(g[k], g[pivot], h[k], g[k][col].value(), x, n);
    }
    if solves(g, x, n) {
        assert(satisfies(g[pivot], x, n));
        assert forall|i: int| 0 <= i < h.len() implies satisfies(#[trigger] h[i], x, n) by {
            if lo <= i < hi {
                assert(satisfies(g[i], x, n));
                lemma_times_zero(g[i][col].value(), 0 as real);
            } else {
                assert(h[i] == g[i]);
            }
        }
    }
    if solves(h, x, n) {
        assert(satisfies(h[pivot], x, n));
        assert forall|i: int| 0 <= i < g.len() implies satisfies(#[trigger] g[i], x, n) by {
            if lo <= i < hi {
                assert(satisfies(h[i], x, n));
                lemma_times_zero(g[i][col].value(), 0 as real);
            } else {
                assert(h[i] == g[i]);
            }
        }
    }
}

/// One pivot step keeps the solutions.
pub proof fn lemma_pivot_step_solutions(
    g: Seq<Seq<Rational>>,
    cols: nat,
    row: int,
    col: int,
    x: Seq<real>,
    n: nat,
)
    requires
        grid_wf(g, cols),
        n < cols,
        0 <= row < g.len(),
        0 <= col < cols,
        pivot_step(g, row, col) is Some,
    ensures
        solves(pivot_step(g, row, col).unwrap(), x, n) == solves(g, x, n),
{
    let len = g.len() as int;
    let p = pivot_row(g, col, row, len);
    lemma_pivot_row(g, col, row, len);
    let swapped = swap_rows(g, row, p);
    lemma_swap_solutions(g, row, p, x, n);
    assert(grid_wf(swapped, cols));
    lemma_normalize_solutions(swapped, cols, row, col, x, n);
    lemma_normalize_row(swapped[row], col);
    let s2 = swapped.update(row, normalize_row(swapped[row], col).unwrap());
    assert(grid_wf(s2, cols));
    lemma_eliminate_solutions(s2, cols, row, col, row + 1, len, x, n);
}

/// The forward pass keeps the solutions.
pub proof fn lemma_forward_solutions(
    g: Seq<Seq<Rational>>,
    cols: nat,
    row: nat,
    col: nat,
    x: Seq<real>,
    n: nat,
)
    requires
        grid_wf(g, cols),
        n < cols,
        forward_pass(g, cols, row, col) is Some,
    ensures
        solves(forward_pass(g, cols, row, col).unwrap().0, x, n) == solves(g, x, n),
        grid_wf(forward_pass(g, cols, row, col).unwrap().0, cols),
    decreases cols - col,
{
    if row >= g.len() || col >= cols {
    } else if g[pivot_row(g, col as int, row as int, g.len() as int)][col as int].value()
        == 0 as real {
        lemma_forward_solutions(g, cols, row, col + 1, x, n);
    } else {
        lemma_pivot_step_solutions(g, cols, row as int, col as int, x, n);
        let h = pivot_step(g, row as int, col as int).unwrap();
        lemma_pivot_step_shape(g, cols, row as int, col as int);
        lemma_forward_solutions(h, cols, row + 1, col + 1, x, n);
    }
}

/// One pivot step keeps the shape of the grid.
pub proof fn lemma_pivot_step_shape(g: Seq<Seq<Rational>>, cols: nat, row: int, col: int)
    requires
        grid_wf(g, cols),
        0 <= row < g.len(),
        0 <= col < cols,
        pivot_step(g, row, col) is Some,
    ensures
        pivot_step(g, row, col).unwrap().len() == g.len(),
        grid_wf(pivot_step(g, row, col).unwrap(), cols),
{
    let len = g.len() as int;
    let p = pivot_row(g, col, row, len);
    lemma_pivot_row(g, col, row, len);
    let swapped = swap_rows(g, row, p);
    assert(grid_wf(swapped, cols));
    lemma_normalize_row(swapped[row], col);
    let s2 = swapped.update(row, normalize_row(swapped[row], col).unwrap());
    assert(grid_wf(s2, cols));
    lemma_eliminate_rows(s2, cols, row, col, row + 1, len);
}

/// The backward pass keeps the solutions.
pub proof fn lemma_backward_solutions(
    g: Seq<Seq<Rational>>,
    cols: nat,
    rank: nat,
    row: nat,
    col: nat,
    x: Seq<real>,
    n: nat,
)
    requires
        grid_wf(g, cols),
        n < cols,
        col <= cols,
        backward_pass(g, rank, row, col) is Some,
    ensures
        solves(backward_pass(g, rank, row, col).unwrap(), x, n) == solves(g, x, n),
    decreases rank - row,
{
    if row >= rank || row >= g.len() {
    } else {
        lemma_first_nonzero(g[row as int], col as int);
        let c = first_nonzero(g[row as int], col as int);
        if c >= g[row as int].len() {
        } else {
            lemma_eliminate_solutions(g, cols, row as int, c, 0, row as int, x, n);
            lemma_eliminate_rows(g, cols, row as int, c, 0, row as int);
            let h = eliminate_rows(g, row as int, c, 0, row as int).unwrap();
            lemma_backward_solutions(h, cols, rank, row + 1, (c + 1) as nat, x, n);
        }
    }
}

/// The reduction keeps the solutions: the reduced system and the system it
/// came from have the same ones.
pub proof fn lemma_reduce_solutions(g: Seq<Seq<Rational>>, cols: nat, x: Seq<real>, n: nat)
    requires
        grid_wf(g, cols),
        n < cols,
        reduce(g, cols) is Some,
    ensures
        solves(reduce(g, cols).unwrap().0, x, n) == solves(g, x, n),
{
    lemma_forward_solutions(g, cols, 0, 0, x, n);
    let (h, rank) = forward_pass(g, cols, 0, 0).unwrap();
    lemma_backward_solutions(h, cols, rank, 0, 0, x, n);
}

} // verus!
