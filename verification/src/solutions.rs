//! The solutions of a linear system in reduced row-echelon form.

use crate::echelon::grid_wf;
use crate::echelon_laws::{is_rref, lead, lemma_first_nonzero};
use crate::linear_systems::{
    dot, lemma_term_at_one, lemma_term_of_zero, lemma_term_unit, lemma_term_zero, satisfies,
    solves, term,
};
use crate::rational::Rational;
use vstd::prelude::*;

verus! {

/// The numbers that the rationals stand for.
pub open spec fn values(s: Seq<Rational>) -> Seq<real> {
    Seq::new(s.len(), |j: int| s[j].value())
}

/// Column `n` of the first `n` rows: what the reduced system of full rank
/// gives as its solution.
pub open spec fn last_column(g: Seq<Seq<Rational>>, n: nat) -> Seq<Rational> {
    Seq::new(n, |j: int| g[j][n as int])
}

/// The equation has only zero coefficients and a nonzero right-hand side:
/// it reads `0 = c` with `c` not zero.
pub open spec fn contradictory(row: Seq<Rational>, n: nat) -> bool {
    &&& forall|j: int| 0 <= j < n ==> (#[trigger] row[j]).value() == 0 as real
    &&& row[n as int].value() != 0 as real
}

/// Some equation of the system is contradictory.
pub open spec fn has_contradiction(g: Seq<Seq<Rational>>, n: nat) -> bool {
    exists|i: int| 0 <= i < g.len() && contradictory(#[trigger] g[i], n)
}

/// A sum of zero terms is zero.
pub proof fn lemma_dot_zero(row: Seq<Rational>, x: Seq<real>, n: nat)
    requires
        forall|j: int| 0 <= j < n ==> (#[trigger] row[j]).value() == 0 as real,
    ensures
        dot(row, x, n) == 0 as real,
    decreases n,
{
    if n > 0 {
        lemma_dot_zero(row, x, (n - 1) as nat);
        assert(row[n - 1].value() == 0 as real);
        lemma_term_zero(row, x, n - 1);
    }
}

/// A sum whose terms are zero but for those of columns `c1` and `c2` is the
/// sum of these two.
pub proof fn lemma_dot_two_terms(row: Seq<Rational>, x: Seq<real>, n: nat, c1: int, c2: int)
    requires
        0 <= c1 < c2,
        forall|j: int| 0 <= j < n && j != c1 && j != c2 ==> #[trigger] term(row, x, j) == 0 as real,
    ensures
        dot(row, x, n) == (if c1 < n {
            term(row, x, c1)
        } else {
            0 as real
        }) + (if c2 < n {
            term(row, x, c2)
        } else {
            0 as real
        }),
    decreases n,
{
    if n > 0 {
        lemma_dot_two_terms(row, x, (n - 1) as nat, c1, c2);
        if n - 1 != c1 && n - 1 != c2 {
            assert(term(row, x, n - 1) == 0 as real);
        }
    }
}

/// A sum whose terms are zero but for that of column `c` is that term.
pub proof fn lemma_dot_one_term(row: Seq<Rational>, x: Seq<real>, n: nat, c: int)
    requires
        0 <= c < n,
        forall|j: int| 0 <= j < n && j != c ==> #[trigger] term(row, x, j) == 0 as real,
    ensures
        dot(row, x, n) == term(row, x, c),
{
    lemma_dot_two_terms(row, x, n, c, n as int);
}

/// No assignment satisfies a contradictory equation.
pub proof fn lemma_contradiction(row: Seq<Rational>, x: Seq<real>, n: nat)
    requires
        contradictory(row, n),
    ensures
        !satisfies(row, x, n),
{
    lemma_dot_zero(row, x, n);
}

/// Pivots that move right from row to row lie at or right of the diagonal.
pub proof fn lemma_lead_at_least(g: Seq<Seq<Rational>>, cols: nat, rank: nat, r: int)
    requires
        is_rref(g, cols, rank),
        0 <= r < rank,
    ensures
        lead(g[r]) >= r,
    decreases r,
{
    if r > 0 {
        lemma_lead_at_least(g, cols, rank, r - 1);
        assert(lead(g[r - 1]) < lead(g[r]));
    }
}

/// Pivots that move right from row to row and end before column `n` in row
/// `n - 1` lie on the diagonal.
pub proof fn lemma_lead_on_diagonal(g: Seq<Seq<Rational>>, cols: nat, rank: nat, n: nat, r: int)
    requires
        is_rref(g, cols, rank),
        0 <= r < n <= rank,
        lead(g[n - 1]) < n,
    ensures
        lead(g[r]) == r,
    decreases n - r,
{
    lemma_lead_at_least(g, cols, rank, r);
    if r < n - 1 {
        lemma_lead_on_diagonal(g, cols, rank, n, r + 1);
        assert(lead(g[r]) < lead(g[r + 1]));
    }
}

/// In a reduced system without a contradictory equation every pivot lies in
/// a coefficient column, so there are at most as many pivots as unknowns.
pub proof fn lemma_pivots_in_coefficients(g: Seq<Seq<Rational>>, rank: nat, n: nat)
    requires
        grid_wf(g, n + 1),
        is_rref(g, n + 1, rank),
        forall|i: int| 0 <= i < g.len() ==> !contradictory(#[trigger] g[i], n),
    ensures
        forall|r: int| 0 <= r < rank ==> lead(#[trigger] g[r]) < n,
        rank <= n,
{
    assert forall|r: int| 0 <= r < rank implies lead(#[trigger] g[r]) < n by {
        lemma_first_nonzero(g[r], 0);
        if lead(g[r]) == n {
            assert(contradictory(g[r], n));
        }
    }
    if rank > 0 {
        lemma_lead_at_least(g, n + 1, rank, rank - 1);
        assert(lead(g[rank - 1]) < n);
    }
}

/// A reduced system with as many pivots as unknowns and no contradictory
/// equation has its last column as its one solution.
pub proof fn lemma_full_rank_solution(g: Seq<Seq<Rational>>, rank: nat, n: nat, x: Seq<real>)
    requires
        grid_wf(g, n + 1),
        is_rref(g, n + 1, rank),
        forall|i: int| 0 <= i < g.len() ==> !contradictory(#[trigger] g[i], n),
        rank >= n,
    ensures
        rank == n,
        solves(g, x, n) <==> x == values(last_column(g, n)),
{
    lemma_pivots_in_coefficients(g, rank, n);
    let sol = values(last_column(g, n));
    if x.len() == n {
        assert forall|i: int| 0 <= i < g.len() implies (satisfies(#[trigger] g[i], x, n) <==> (i < n
            ==> x[i] == g[i][n as int].value())) by {
            lemma_full_rank_row(g, rank, n, x, i);
        }
    }
    if solves(g, x, n) {
        assert forall|j: int| 0 <= j < n implies x[j] == sol[j] by {
            assert(satisfies(g[j], x, n));
        }
        assert(x =~= sol);
    }
    if x == sol {
        assert forall|i: int| 0 <= i < g.len() implies satisfies(#[trigger] g[i], x, n) by {
            if i < n {
                assert(x[i] == g[i][n as int].value());
            }
        }
    }
}

/// In a reduced system of full rank without a contradictory equation, the
/// equation of row `i` says that unknown `i` is the row's right-hand side,
/// and the rows after the unknowns say nothing.
proof fn lemma_full_rank_row(g: Seq<Seq<Rational>>, rank: nat, n: nat, x: Seq<real>, i: int)
    requires
        grid_wf(g, n + 1),
        is_rref(g, n + 1, rank),
        rank == n,
        n == 0 || lead(g[n - 1]) < n,
        0 <= i < g.len(),
    ensures
        satisfies(g[i], x, n) <==> (i < n ==> x[i] == g[i][n as int].value()),
{
    let row = g[i];
    if i < n {
        lemma_lead_on_diagonal(g, n + 1, rank, n, i);
        assert forall|j: int| 0 <= j < n && j != i implies #[trigger] term(row, x, j)
            == 0 as real by {
            lemma_lead_on_diagonal(g, n + 1, rank, n, j);
            let other = g[j];
            assert(row[lead(other)].value() == 0 as real);
            lemma_term_zero(row, x, j);
        }
        lemma_dot_one_term(row, x, n, i);
        assert(row[i].value() == 1 as real);
        lemma_term_unit(row, x, i);
    } else {
        lemma_first_nonzero(row, 0);
        assert(lead(row) == n + 1);
        lemma_dot_zero(row, x, n);
        assert(row[n as int].value() == 0 as real);
    }
}

/// Column `c` holds the pivot of one of the first `rank` rows.
pub open spec fn is_pivot_column(g: Seq<Seq<Rational>>, rank: nat, c: int) -> bool {
    exists|r: int| 0 <= r < rank && lead(#[trigger] g[r]) == c
}

/// The row whose pivot lies in column `c`.
pub open spec fn pivot_row_of(g: Seq<Seq<Rational>>, rank: nat, c: int) -> int {
    choose|r: int| 0 <= r < rank && lead(#[trigger] g[r]) == c
}

/// The solution of a reduced system in which every free unknown is zero:
/// the unknown of each pivot column is the right-hand side of its row.
pub open spec fn particular_solution(g: Seq<Seq<Rational>>, rank: nat, n: nat) -> Seq<real> {
    Seq::new(
        n,
        |c: int|
            if is_pivot_column(g, rank, c) {
                g[pivot_row_of(g, rank, c)][n as int].value()
            } else {
                0 as real
            },
    )
}

/// The solution of a reduced system in which the free unknown `f` is one and
/// every other free unknown is zero.
pub open spec fn shifted_solution(g: Seq<Seq<Rational>>, rank: nat, n: nat, f: int) -> Seq<real> {
    Seq::new(
        n,
        |c: int|
            if c == f {
                1 as real
            } else if is_pivot_column(g, rank, c) {
                g[pivot_row_of(g, rank, c)][n as int].value() - g[pivot_row_of(g, rank, c)][f].value()
            } else {
                0 as real
            },
    )
}

/// The first column, from `j` on, that is not the pivot column of the row
/// of the same number: a free column where there are fewer pivots than
/// columns.
pub open spec fn free_column(g: Seq<Seq<Rational>>, rank: nat, j: nat) -> nat
    decreases rank - j,
{
    if j >= rank || lead(g[j as int]) != j {
        j
    } else {
        free_column(g, rank, j + 1)
    }
}

/// Rows with pivots in the same column are the same row.
pub proof fn lemma_pivot_row_unique(g: Seq<Seq<Rational>>, cols: nat, rank: nat, r1: int, r2: int)
    requires
        is_rref(g, cols, rank),
        0 <= r1 < rank,
        0 <= r2 < rank,
        lead(g[r1]) == lead(g[r2]),
    ensures
        r1 == r2,
{
    if r1 < r2 {
        assert(lead(g[r1]) < lead(g[r2]));
    }
    if r2 < r1 {
        assert(lead(g[r2]) < lead(g[r1]));
    }
}

/// The pivot column of a row is a pivot column, and that of this row.
pub proof fn lemma_pivot_row_of(g: Seq<Seq<Rational>>, cols: nat, rank: nat, r: int)
    requires
        is_rref(g, cols, rank),
        0 <= r < rank,
    ensures
        is_pivot_column(g, rank, lead(g[r])),
        pivot_row_of(g, rank, lead(g[r])) == r,
{
    let c = lead(g[r]);
    assert(0 <= r < rank && lead(g[r]) == c);
    let q = pivot_row_of(g, rank, c);
    lemma_pivot_row_unique(g, cols, rank, q, r);
}

/// The free column lies at or after `j` and at or before `rank`, and is no
/// pivot column, given that the rows before `j` have their pivots on the
/// diagonal.
pub proof fn lemma_free_column(g: Seq<Seq<Rational>>, cols: nat, rank: nat, j: nat)
    requires
        is_rref(g, cols, rank),
        j <= rank,
        forall|r: int| 0 <= r < j ==> lead(#[trigger] g[r]) == r,
    ensures
        j <= free_column(g, rank, j) <= rank,
        !is_pivot_column(g, rank, free_column(g, rank, j) as int),
    decreases rank - j,
{
    if j >= rank || lead(g[j as int]) != j {
        assert forall|r: int| 0 <= r < rank implies lead(#[trigger] g[r]) != j by {
            if r >= j {
                lemma_lead_at_least(g, cols, rank, r);
                if r > j {
                    lemma_lead_at_least(g, cols, rank, j as int);
                    assert(lead(g[j as int]) < lead(g[r]));
                }
            }
        }
    } else {
        assert forall|r: int| 0 <= r < j + 1 implies lead(#[trigger] g[r]) == r by {}
        lemma_free_column(g, cols, rank, j + 1);
    }
}

/// In a reduced system without a contradictory equation, an assignment that
/// gives each pivot unknown its right-hand side less the row's entry of
/// column `f` times `v`, gives unknown `f` the value `v` and gives the other
/// free unknowns zero, satisfies row `i`.
proof fn lemma_row_satisfied(
    g: Seq<Seq<Rational>>,
    rank: nat,
    n: nat,
    x: Seq<real>,
    f: int,
    i: int,
)
    requires
        grid_wf(g, n + 1),
        is_rref(g, n + 1, rank),
        forall|r: int| 0 <= r < rank ==> lead(#[trigger] g[r]) < n,
        x.len() == n,
        0 <= i < g.len(),
        0 <= f <= n,
        !is_pivot_column(g, rank, f),
        forall|c: int|
            0 <= c < n && c != f && !is_pivot_column(g, rank, c) ==> #[trigger] x[c] == 0 as real,
        i < rank ==> x[lead(g[i])] == g[i][n as int].value() - (if f < n {
            term(g[i], x, f)
        } else {
            0 as real
        }),
    ensures
        satisfies(g[i], x, n),
{
    let row = g[i];
    if i < rank {
        let li = lead(row);
        assert(is_pivot_column(g, rank, li));
        assert forall|j: int| 0 <= j < n && j != li && j != f implies #[trigger] term(row, x, j)
            == 0 as real by {
            if is_pivot_column(g, rank, j) {
                let k = pivot_row_of(g, rank, j);
                let other = g[k];
                assert(lead(other) == j);
                assert(k != i);
                if k < i {
                    assert(row[lead(other)].value() == 0 as real);
                } else {
                    assert(row[lead(other)].value() == 0 as real);
                }
                lemma_term_zero(row, x, j);
            } else {
                assert(x[j] == 0 as real);
                lemma_term_of_zero(row, x, j);
            }
        }
        assert(row[li].value() == 1 as real);
        lemma_term_unit(row, x, li);
        if li < f {
            lemma_dot_two_terms(row, x, n, li, f);
        } else {
            lemma_dot_two_terms(row, x, n, f, li);
        }
    } else {
        lemma_first_nonzero(row, 0);
        assert(lead(row) == n + 1);
        lemma_dot_zero(row, x, n);
        assert(row[n as int].value() == 0 as real);
    }
}

/// A reduced system without a contradictory equation has a solution: the one
/// in which every free unknown is zero.
pub proof fn lemma_particular_solution(g: Seq<Seq<Rational>>, rank: nat, n: nat)
    requires
        grid_wf(g, n + 1),
        is_rref(g, n + 1, rank),
        forall|i: int| 0 <= i < g.len() ==> !contradictory(#[trigger] g[i], n),
    ensures
        solves(g, particular_solution(g, rank, n), n),
{
    lemma_pivots_in_coefficients(g, rank, n);
    let x = particular_solution(g, rank, n);
    assert forall|i: int| 0 <= i < g.len() implies satisfies(#[trigger] g[i], x, n) by {
        if i < rank {
            lemma_pivot_row_of(g, n + 1, rank, i);
        }
        lemma_row_satisfied(g, rank, n, x, n as int, i);
    }
}

/// A reduced system without a contradictory equation and with fewer pivots
/// than unknowns has a second solution, in which a free unknown is one.
pub proof fn lemma_shifted_solution(g: Seq<Seq<Rational>>, rank: nat, n: nat)
    requires
        grid_wf(g, n + 1),
        is_rref(g, n + 1, rank),
        forall|i: int| 0 <= i < g.len() ==> !contradictory(#[trigger] g[i], n),
        rank < n,
    ensures
        free_column(g, rank, 0) < n,
        solves(g, shifted_solution(g, rank, n, free_column(g, rank, 0) as int), n),
        shifted_solution(g, rank, n, free_column(g, rank, 0) as int) != particular_solution(
            g,
            rank,
            n,
        ),
{
    lemma_pivots_in_coefficients(g, rank, n);
    lemma_free_column(g, n + 1, rank, 0);
    let f = free_column(g, rank, 0) as int;
    let x = shifted_solution(g, rank, n, f);
    assert forall|i: int| 0 <= i < g.len() implies satisfies(#[trigger] g[i], x, n) by {
        if i < rank {
            lemma_pivot_row_of(g, n + 1, rank, i);
            assert(x[f] == 1 as real);
            lemma_term_at_one(g[i], x, f);
        }
        lemma_row_satisfied(g, rank, n, x, f, i);
    }
    assert(x[f] == 1 as real);
    assert(particular_solution(g, rank, n)[f] == 0 as real);
}

} // verus!
