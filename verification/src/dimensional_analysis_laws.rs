//! What the outcome of a dimensional analysis says of the dimensions: the
//! solver finds the exponents with which the dependencies combine into the
//! target, and finds them all.

use crate::dimensional::{all_zero, Dimension};
use crate::dimensional_analysis::{
    active_rows, all_faithful, augmented, combined_exponent, combines, faithful, flattened,
    outcome_means, power_term, spec_solve, table_row,
};
use crate::echelon::{grid_wf, reduce, row_wf};
use crate::echelon_laws::lemma_reduce_is_rref;
use crate::linear_systems::{dot, lemma_reduce_solutions, satisfies, solves, term};
use crate::matrix::zero_row;
use crate::rational::Rational;
use crate::solutions::{
    contradictory, free_column, has_contradiction, last_column, lemma_contradiction,
    lemma_dot_zero, lemma_full_rank_solution, lemma_particular_solution, lemma_shifted_solution,
    particular_solution, shifted_solution, values,
};
use vstd::prelude::*;

verus! {

/// A well-formed dimension is faithful.
pub proof fn lemma_faithful(d: Dimension)
    requires
        d.wf(),
    ensures
        faithful(d),
{
    d.lemma_flatten();
}

/// The left-hand side of the equation of base dimension `i` is the exponent
/// of that base dimension in the product of powers.
proof fn lemma_table_dot(
    target: Seq<Rational>,
    deps: Seq<Dimension>,
    d: Seq<Seq<Rational>>,
    x: Seq<real>,
    i: int,
    k: nat,
)
    requires
        all_faithful(deps),
        flattened(deps) == Some(d),
        0 <= i < 7,
        k <= deps.len(),
    ensures
        dot(table_row(target, d, i), x, k) == combined_exponent(deps, x, i, k),
    decreases k,
{
    if k > 0 {
        lemma_table_dot(target, deps, d, x, i, (k - 1) as nat);
        let row = table_row(target, d, i);
        assert(faithful(deps[k - 1]));
        assert(row[k - 1] == d[k - 1][i]);
        assert(d[k - 1] == deps[k - 1].flatten().unwrap());
        assert(row[k - 1].value() == deps[k - 1].exponent(i));
        assert(term(row, x, k - 1) == power_term(deps[k - 1], x[k - 1], i));
    }
}

/// An assignment satisfies the equation of base dimension `i` exactly when
/// the product of powers has the target's exponent of that base dimension.
proof fn lemma_table_row(target: Dimension, deps: Seq<Dimension>, x: Seq<real>, i: int)
    requires
        faithful(target),
        all_faithful(deps),
        target.flatten() is Some,
        flattened(deps) is Some,
        0 <= i < 7,
    ensures
        satisfies(
            table_row(target.flatten().unwrap(), flattened(deps).unwrap(), i),
            x,
            deps.len(),
        ) <==> combined_exponent(deps, x, i, deps.len()) == target.exponent(i),
{
    let t = target.flatten().unwrap();
    let d = flattened(deps).unwrap();
    lemma_table_dot(t, deps, d, x, i, deps.len());
    let row = table_row(t, d, i);
    assert(row[deps.len() as int] == t[i]);
}

/// The rows of the table are well formed.
proof fn lemma_table_wf(target: Dimension, deps: Seq<Dimension>, i: int)
    requires
        faithful(target),
        all_faithful(deps),
        target.flatten() is Some,
        flattened(deps) is Some,
        0 <= i < 7,
    ensures
        row_wf(table_row(target.flatten().unwrap(), flattened(deps).unwrap(), i)),
        table_row(target.flatten().unwrap(), flattened(deps).unwrap(), i).len() == deps.len() + 1,
{
    let t = target.flatten().unwrap();
    let d = flattened(deps).unwrap();
    let row = table_row(t, d, i);
    assert forall|j: int| 0 <= j < row.len() implies (#[trigger] row[j]).wf() by {
        if j < deps.len() {
            assert(faithful(deps[j]));
            assert(d[j] == deps[j].flatten().unwrap());
            assert(d[j][i].wf());
        } else {
            assert(t[i].wf());
        }
    }
}

/// An assignment solves the equations of the active base dimensions among
/// the first `upto` exactly when it satisfies the equation of each of the
/// first `upto` base dimensions: the others read `0 = 0`.
proof fn lemma_active_rows(target: Dimension, deps: Seq<Dimension>, x: Seq<real>, upto: nat)
    requires
        faithful(target),
        all_faithful(deps),
        target.flatten() is Some,
        flattened(deps) is Some,
        upto <= 7,
        x.len() == deps.len(),
    ensures
        grid_wf(
            active_rows(target.flatten().unwrap(), flattened(deps).unwrap(), upto),
            deps.len() + 1,
        ),
        solves(
            active_rows(target.flatten().unwrap(), flattened(deps).unwrap(), upto),
            x,
            deps.len(),
        ) <==> (forall|i: int|
            0 <= i < upto ==> #[trigger] combined_exponent(deps, x, i, deps.len())
                == target.exponent(i)),
    decreases upto,
{
    let t = target.flatten().unwrap();
    let d = flattened(deps).unwrap();
    let n = deps.len();
    if upto > 0 {
        lemma_active_rows(target, deps, x, (upto - 1) as nat);
        let prev = active_rows(t, d, (upto - 1) as nat);
        let cur = active_rows(t, d, upto);
        let row = table_row(t, d, upto - 1);
        lemma_table_row(target, deps, x, upto - 1);
        lemma_table_wf(target, deps, upto - 1);
        if all_zero(row) {
            assert forall|j: int| 0 <= j < n implies (#[trigger] row[j]).value() == 0 as real by {}
            lemma_dot_zero(row, x, n);
            assert(row[n as int].value() == 0 as real);
            assert(satisfies(row, x, n));
        } else {
            assert(cur == prev.push(row));
            if solves(prev, x, n) && satisfies(row, x, n) {
                assert forall|i: int| 0 <= i < cur.len() implies satisfies(#[trigger] cur[i], x, n) by {
                    if i < prev.len() {
                        assert(cur[i] == prev[i]);
                    }
                }
            }
            if solves(cur, x, n) {
                assert(cur[prev.len() as int] == row);
                assert forall|i: int| 0 <= i < prev.len() implies satisfies(
                    #[trigger] prev[i],
                    x,
                    n,
                ) by {
                    assert(cur[i] == prev[i]);
                }
            }
        }
    }
}

/// An assignment solves the augmented system of the problem exactly when
/// the product of the powers it gives has the dimension of the target.
pub proof fn lemma_system_means_combination(target: Dimension, deps: Seq<Dimension>, x: Seq<real>)
    requires
        faithful(target),
        all_faithful(deps),
        augmented(target, deps) is Some,
    ensures
        grid_wf(augmented(target, deps).unwrap(), deps.len() + 1),
        solves(augmented(target, deps).unwrap(), x, deps.len()) <==> combines(target, deps, x),
{
    if x.len() == deps.len() {
        lemma_active_rows(target, deps, x, 7);
    } else {
        lemma_active_rows(target, deps, Seq::new(deps.len(), |j: int| 0 as real), 7);
    }
}

/// The outcome of the solver means what [`outcome_means`] says: the solver
/// finds the exponents with which the dependencies combine into the target,
/// says so where there are none, and says so where there are several.
pub proof fn lemma_solve_outcome(target: Dimension, deps: Seq<Dimension>)
    requires
        faithful(target),
        all_faithful(deps),
    ensures
        spec_solve(target, deps) matches Ok(o) ==> outcome_means(target, deps, o),
{
    if let Ok(outcome) = spec_solve(target, deps) {
        let ab = augmented(target, deps).unwrap();
        let n = deps.len();
        assert forall|x: Seq<real>| solves(ab, x, n) == #[trigger] combines(target, deps, x) by {
            lemma_system_means_combination(target, deps, x);
        }
        lemma_system_means_combination(target, deps, values(zero_row(n)));
        if ab.len() == 0 {
            let zeros = values(zero_row(n));
            assert(solves(ab, zeros, n));
        } else {
            let (r, rank) = reduce(ab, n + 1).unwrap();
            lemma_reduce_is_rref(ab, n + 1);
            assert forall|x: Seq<real>| solves(r, x, n) == #[trigger] combines(target, deps, x) by {
                lemma_reduce_solutions(ab, n + 1, x, n);
            }
            if has_contradiction(r, n) {
                let i = choose|i: int| 0 <= i < r.len() && contradictory(#[trigger] r[i], n);
                assert forall|x: Seq<real>| !combines(target, deps, x) by {
                    lemma_contradiction(r[i], x, n);
                    assert(!solves(r, x, n));
                }
            } else if rank < n {
                lemma_particular_solution(r, rank, n);
                lemma_shifted_solution(r, rank, n);
                let y = particular_solution(r, rank, n);
                let z = shifted_solution(r, rank, n, free_column(r, rank, 0) as int);
                assert(combines(target, deps, y));
                assert(combines(target, deps, z));
                assert(y != z);
            } else {
                let s = last_column(r, n);
                lemma_full_rank_solution(r, rank, n, values(s));
                assert(combines(target, deps, values(s)));
                assert forall|x: Seq<real>| combines(target, deps, x) implies x == values(s) by {
                    lemma_full_rank_solution(r, rank, n, x);
                }
            }
        }
    }
}

} // verus!
