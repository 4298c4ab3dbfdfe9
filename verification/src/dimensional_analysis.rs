//! Dimensional analysis: the exponents with which a list of quantities
//! combines into a target dimension.
//!
//! Each base dimension that occurs in the target or in a dependency gives one
//! linear equation in the unknown exponents. The augmented system is reduced
//! to reduced row-echelon form and the outcome read off it.

use crate::dimensional::{all_zero, Dimension, DimensionError};
use crate::dimensional_analysis_laws::lemma_solve_outcome;
use crate::echelon::{grid_wf, reduce, row_wf};
use crate::matrix::{column, grid_text, zero_row, Matrix};
use crate::rational::Rational;
use crate::reals::times;
use crate::solutions::{contradictory, has_contradiction, last_column, values};
use crate::text::{nat_text, natural_text};
use vstd::string::StringExecFns;
use vstd::prelude::*;

verus! {

/// A problem of dimensional analysis: a target and the dimensions it may
/// depend on, in the order of the unknown exponents.
#[derive(Clone, Debug)]
pub struct DimensionalAnalysis {
    /// The dimension to be expressed.
    pub target: Dimension,
    /// The dimensions of the quantities it may depend on.
    pub dependencies: Vec<Dimension>,
}

/// The outcome of a dimensional analysis.
#[derive(Debug)]
pub enum DimensionalAnalysisSolution {
    /// No choice of exponents gives the target.
    NoSolution,
    /// The exponents, one per dependency, as a column.
    UniqueSolution(Matrix),
    /// The system leaves exponents free: its rank, the number of unknowns,
    /// and the reduced coefficients and right-hand side.
    MultipleSolutions { rank: usize, n: usize, reduced_a: Matrix, reduced_b: Matrix },
}

/// The outcome of a dimensional analysis as a mathematical value.
pub enum Outcome {
    /// No choice of exponents gives the target.
    NoSolution,
    /// The exponents, one per dependency.
    Unique(Seq<Rational>),
    /// The rank, the number of unknowns, and the reduced coefficients and
    /// right-hand side.
    Multiple { rank: nat, n: nat, a: Seq<Seq<Rational>>, b: Seq<Seq<Rational>> },
}

impl View for DimensionalAnalysisSolution {
    type V = Outcome;

    /// The outcome as a mathematical value; the unique solution is the one
    /// column of its matrix.
    open spec fn view(&self) -> Outcome {
        match self {
            DimensionalAnalysisSolution::NoSolution => Outcome::NoSolution,
            DimensionalAnalysisSolution::UniqueSolution(x) => Outcome::Unique(column(x@, 0)),
            DimensionalAnalysisSolution::MultipleSolutions { rank, n, reduced_a, reduced_b } => {
                Outcome::Multiple { rank: *rank as nat, n: *n as nat, a: reduced_a@, b: reduced_b@ }
            },
        }
    }
}

impl DimensionalAnalysisSolution {
    /// The matrices of the outcome are well formed.
    pub open spec fn wf(&self) -> bool {
        match self {
            DimensionalAnalysisSolution::NoSolution => true,
            DimensionalAnalysisSolution::UniqueSolution(x) => x.wf(),
            DimensionalAnalysisSolution::MultipleSolutions { rank, n, reduced_a, reduced_b } => {
                reduced_a.wf() && reduced_b.wf()
            },
        }
    }

    /// The text of the outcome.
    pub open spec fn spec_text(&self) -> Seq<char> {
        match self {
            DimensionalAnalysisSolution::NoSolution => "No feasible solution."@,
            DimensionalAnalysisSolution::UniqueSolution(x) => "Unique solution:\n"@ + grid_text(x@),
            DimensionalAnalysisSolution::MultipleSolutions { rank, n, reduced_a, reduced_b } => {
                "Multiple solutions (rank = "@ + nat_text(*rank as nat) + ", variables = "@
                    + nat_text(*n as nat) + ")\nReduced row echelon form:\nA:\n"@ + grid_text(
                    reduced_a@,
                ) + "\nb:\n"@ + grid_text(reduced_b@)
            },
        }
    }

    /// The text of the outcome: a line that names it, then the solution or
    /// the reduced system.
    pub fn to_text(&self) -> (r: String)
        requires
            self.wf(),
        ensures
            r@ == self.spec_text(),
    {
        let mut out = String::new();
        match self {
            DimensionalAnalysisSolution::NoSolution => {
                out.append("No feasible solution.");
                assert(out@ =~= "No feasible solution."@);
            },
            DimensionalAnalysisSolution::UniqueSolution(x) => {
                out.append("Unique solution:\n");
                let t = x.to_text();
                out.append(t.as_str());
                assert(out@ =~= "Unique solution:\n"@ + grid_text(x@));
            },
            DimensionalAnalysisSolution::MultipleSolutions { rank, n, reduced_a, reduced_b } => {
                out.append("Multiple solutions (rank = ");
                let t = natural_text(*rank);
                out.append(t.as_str());
                out.append(", variables = ");
                let t = natural_text(*n);
                out.append(t.as_str());
                out.append(")\nReduced row echelon form:\nA:\n");
                let t = reduced_a.to_text();
                out.append(t.as_str());
                out.append("\nb:\n");
                let t = reduced_b.to_text();
                out.append(t.as_str());
                assert(out@ =~= self.spec_text());
            },
        }
        out
    }
}

/// The exponents of each dimension of the list, where all fit the rational
/// type.
pub open spec fn flattened(deps: Seq<Dimension>) -> Option<Seq<Seq<Rational>>> {
    if forall|j: int| 0 <= j < deps.len() ==> (#[trigger] deps[j]).flatten() is Some {
        Some(Seq::new(deps.len(), |j: int| deps[j].flatten().unwrap()))
    } else {
        None
    }
}

/// The equation of base dimension `i`: the exponent of each dependency, then
/// that of the target.
pub open spec fn table_row(target: Seq<Rational>, deps: Seq<Seq<Rational>>, i: int) -> Seq<Rational> {
    Seq::new(
        deps.len() + 1,
        |j: int|
            if j < deps.len() {
                deps[j][i]
            } else {
                target[i]
            },
    )
}

/// The equations of the first `upto` base dimensions that are not zero
/// throughout, in order.
pub open spec fn active_rows(target: Seq<Rational>, deps: Seq<Seq<Rational>>, upto: nat) -> Seq<
    Seq<Rational>,
>
    decreases upto,
{
    if upto == 0 {
        Seq::empty()
    } else {
        let prev = active_rows(target, deps, (upto - 1) as nat);
        let row = table_row(target, deps, upto - 1);
        if all_zero(row) {
            prev
        } else {
            prev.push(row)
        }
    }
}

/// The augmented system `[A | b]` of the problem, or `None` where an exponent
/// does not fit the rational type.
pub open spec fn augmented(target: Dimension, deps: Seq<Dimension>) -> Option<Seq<Seq<Rational>>> {
    match (target.flatten(), flattened(deps)) {
        (Some(t), Some(d)) => Some(active_rows(t, d, 7)),
        _ => None,
    }
}

/// The coefficient part of the reduced system.
pub open spec fn coefficients(g: Seq<Seq<Rational>>, n: int) -> Seq<Seq<Rational>> {
    Seq::new(g.len(), |i: int| g[i].take(n))
}

/// The right-hand side of the reduced system, as a grid of one column.
pub open spec fn right_hand_side(g: Seq<Seq<Rational>>, n: int) -> Seq<Seq<Rational>> {
    Seq::new(g.len(), |i: int| seq![g[i][n]])
}

/// The outcome read off the reduced augmented system of `n` unknowns.
pub open spec fn classify(reduced: Seq<Seq<Rational>>, rank: nat, n: nat) -> Outcome {
    if has_contradiction(reduced, n) {
        Outcome::NoSolution
    } else if rank < n {
        Outcome::Multiple {
            rank,
            n,
            a: coefficients(reduced, n as int),
            b: right_hand_side(reduced, n as int),
        }
    } else {
        Outcome::Unique(last_column(reduced, n))
    }
}

/// The exponent of base dimension `i` in the dimension `d` raised to the
/// power `e`.
pub open spec fn power_term(d: Dimension, e: real, i: int) -> real {
    times(d.exponent(i), e)
}

/// The exponent of base dimension `i` in the product of the first `n`
/// dependencies, each raised to its power in `x`.
pub open spec fn combined_exponent(deps: Seq<Dimension>, x: Seq<real>, i: int, n: nat) -> real
    decreases n,
{
    if n == 0 {
        0 as real
    } else {
        combined_exponent(deps, x, i, (n - 1) as nat) + power_term(deps[n - 1], x[n - 1], i)
    }
}

/// The product of the dependencies, each raised to its power in `x`, has
/// the dimension of the target.
pub open spec fn combines(target: Dimension, deps: Seq<Dimension>, x: Seq<real>) -> bool {
    &&& x.len() == deps.len()
    &&& forall|i: int|
        0 <= i < 7 ==> #[trigger] combined_exponent(deps, x, i, deps.len()) == target.exponent(i)
}

/// Where the exponents of the dimension fit the rational type, they are
/// seven well-formed rationals that stand for its mathematical exponents.
/// This holds of every well-formed dimension.
pub open spec fn faithful(d: Dimension) -> bool {
    d.flatten() matches Some(v) ==> v.len() == 7 && row_wf(v) && forall|i: int|
        0 <= i < 7 ==> (#[trigger] v[i]).value() == d.exponent(i)
}

/// Every dimension of the list is faithful.
pub open spec fn all_faithful(deps: Seq<Dimension>) -> bool {
    forall|j: int| 0 <= j < deps.len() ==> faithful(#[trigger] deps[j])
}

/// What an outcome says of the problem.
///
/// *No solution*: no exponents combine the dependencies into the target.
/// *Unique solution*: the exponents reported do; and where some base
/// dimension occurs in the problem, no others do. *Multiple solutions*:
/// there are fewer pivots than unknowns, and at least two different choices
/// of exponents combine the dependencies into the target.
pub open spec fn outcome_means(target: Dimension, deps: Seq<Dimension>, o: Outcome) -> bool {
    match o {
        Outcome::NoSolution => forall|x: Seq<real>| !combines(target, deps, x),
        Outcome::Unique(s) => combines(target, deps, values(s)) && ((augmented(
            target,
            deps,
        ) matches Some(ab) && ab.len() > 0) ==> forall|x: Seq<real>|
            combines(target, deps, x) ==> x == values(s)),
        Outcome::Multiple { rank, n, a, b } => n == deps.len() && rank < n && exists|
            y: Seq<real>,
            z: Seq<real>,
        |
            y != z && combines(target, deps, y) && combines(target, deps, z),
    }
}

/// What [`DimensionalAnalysis::solve`] returns for a target and its
/// dependencies.
pub open spec fn spec_solve(target: Dimension, deps: Seq<Dimension>) -> Result<
    Outcome,
    DimensionError,
> {
    match augmented(target, deps) {
        Some(ab) => if deps.len() >= usize::MAX {
            Err(DimensionError::Overflow)
        } else if ab.len() == 0 {
            Ok(Outcome::Unique(zero_row(deps.len())))
        } else {
            match reduce(ab, deps.len() + 1) {
                Some((r, rank)) => Ok(classify(r, rank, deps.len())),
                None => Err(DimensionError::Overflow),
            }
        },
        None => Err(DimensionError::Overflow),
    }
}

/// The views of the arrays of exponents.
pub open spec fn arrays_view(d: Seq<[Rational; 7]>) -> Seq<Seq<Rational>> {
    Seq::new(d.len(), |j: int| d[j]@)
}

/// The exponents of every dimension of the list.
fn flatten_all(deps: &Vec<Dimension>) -> (r: Option<Vec<[Rational; 7]>>)
    ensures
        r matches Some(d) ==> flattened(deps@) == Some(arrays_view(d@)) && d@.len() == deps@.len()
            && all_faithful(deps@) && forall|j: int|
            0 <= j < d@.len() ==> row_wf((#[trigger] d@[j])@),
        r is None ==> flattened(deps@) is None,
{
    let mut out: Vec<[Rational; 7]> = Vec::new();
    let mut j: usize = 0;
    while j < deps.len()
        invariant
            j <= deps.len(),
            out@.len() == j,
            forall|k: int| 0 <= k < j ==> (#[trigger] deps@[k]).flatten() == Some(out@[k]@),
            forall|k: int| 0 <= k < j ==> faithful(#[trigger] deps@[k]),
            forall|k: int| 0 <= k < j ==> row_wf((#[trigger] out@[k])@),
        decreases deps.len() - j,
    {
        match deps[j].get_exponents() {
            Ok(v) => {
                out.push(v);
            },
            Err(_) => {
                assert(deps@[j as int].flatten() is None);
                return None;
            },
        }
        j += 1;
    }
    assert(arrays_view(out@) =~= flattened(deps@).unwrap());
    Some(out)
}

/// The equation of base dimension `i` and whether it is zero throughout.
fn build_row(target: &[Rational; 7], deps: &Vec<[Rational; 7]>, i: usize) -> (r: (
    Vec<Rational>,
    bool,
))
    requires
        i < 7,
        deps@.len() < usize::MAX,
        row_wf(target@),
        forall|j: int| 0 <= j < deps@.len() ==> row_wf((#[trigger] deps@[j])@),
    ensures
        r.0@ == table_row(target@, arrays_view(deps@), i as int),
        row_wf(r.0@),
        r.1 == all_zero(r.0@),
{
    let mut row: Vec<Rational> = Vec::new();
    let mut zero = true;
    let mut j: usize = 0;
    while j < deps.len()
        invariant
            i < 7,
            j <= deps.len(),
            row@.len() == j,
            row_wf(row@),
            forall|k: int| 0 <= k < deps@.len() ==> row_wf((#[trigger] deps@[k])@),
            forall|k: int| 0 <= k < j ==> (#[trigger] row@[k]) == deps@[k]@[i as int],
            zero == all_zero(row@),
        decreases deps.len() - j,
    {
        let e = deps[j][i];
        assert(row_wf(deps@[j as int]@));
        let ghost before = row@;
        row.push(e);
        if !e.is_zero() {
            zero = false;
            assert(row@[j as int].value() != 0 as real);
        } else {
            assert(all_zero(before) ==> all_zero(row@));
            assert(!all_zero(before) ==> !all_zero(row@)) by {
                if !all_zero(before) {
                    let k = choose|k: int|
                        0 <= k < before.len() && (#[trigger] before[k]).value() != 0 as real;
                    assert(row@[k] == before[k]);
                }
            }
        }
        j += 1;
    }
    let e = target[i];
    let ghost before = row@;
    row.push(e);
    if !e.is_zero() {
        zero = false;
        assert(row@[deps@.len() as int].value() != 0 as real);
    } else {
        assert(all_zero(before) ==> all_zero(row@));
        assert(!all_zero(before) ==> !all_zero(row@)) by {
            if !all_zero(before) {
                let k = choose|k: int|
                    0 <= k < before.len() && (#[trigger] before[k]).value() != 0 as real;
                assert(row@[k] == before[k]);
            }
        }
    }
    assert(row@ =~= table_row(target@, arrays_view(deps@), i as int));
    (row, zero)
}

/// Whether the equation reads `0 = c` with `c` not zero.
fn contradictory_exec(row: &Vec<Rational>, n: usize) -> (b: bool)
    requires
        n < row@.len(),
    ensures
        b == contradictory(row@, n as nat),
{
    let mut zero = true;
    let mut j: usize = 0;
    while j < n
        invariant
            j <= n < row@.len(),
            zero == (forall|k: int| 0 <= k < j ==> (#[trigger] row@[k]).value() == 0 as real),
        decreases n - j,
    {
        if !row[j].is_zero() {
            zero = false;
            assert(row@[j as int].value() != 0 as real);
        }
        j += 1;
    }
    zero && !row[n].is_zero()
}

impl DimensionalAnalysis {
    /// The augmented system `[A | b]`: one row for each base dimension that
    /// has a nonzero exponent in the target or in a dependency, one column
    /// for each dependency and a last one for the target.
    pub fn augmented_matrix(&self) -> (r: Result<Matrix, DimensionError>)
        ensures
            match augmented(self.target, self.dependencies@) {
                Some(ab) => if self.dependencies@.len() >= usize::MAX {
                    r is Err && r->Err_0 == DimensionError::Overflow
                } else {
                    r is Ok && r->Ok_0@ == ab && r->Ok_0.wf() && r->Ok_0.spec_cols()
                        == self.dependencies@.len() + 1
                },
                None => r is Err && r->Err_0 == DimensionError::Overflow,
            },
            r is Ok ==> faithful(self.target) && all_faithful(self.dependencies@),
    {
        let t = match self.target.get_exponents() {
            Ok(t) => t,
            Err(_) => {
                return Err(DimensionError::Overflow);
            },
        };
        let d = match flatten_all(&self.dependencies) {
            Some(d) => d,
            None => {
                return Err(DimensionError::Overflow);
            },
        };
        let n = self.dependencies.len();
        if n == usize::MAX {
            return Err(DimensionError::Overflow);
        }
        let mut rows: Vec<Vec<Rational>> = Vec::new();
        let mut i: usize = 0;
        while i < 7
            invariant
                i <= 7,
                n < usize::MAX,
                n == d@.len(),
                row_wf(t@),
                forall|j: int| 0 <= j < d@.len() ==> row_wf((#[trigger] d@[j])@),
                crate::matrix::rows_view(rows@) == active_rows(t@, arrays_view(d@), i as nat),
                grid_wf(crate::matrix::rows_view(rows@), (n + 1) as nat),
            decreases 7 - i,
        {
            let (row, zero) = build_row(&t, &d, i);
            if !zero {
                let ghost before = crate::matrix::rows_view(rows@);
                rows.push(row);
                assert(crate::matrix::rows_view(rows@) =~= before.push(row@));
            }
            i += 1;
        }
        if rows.len() == 0 {
            let m = Matrix::new(0, n + 1);
            assert(m@ =~= active_rows(t@, arrays_view(d@), 7));
            return Ok(m);
        }
        let ghost g = crate::matrix::rows_view(rows@);
        assert forall|k: int| 0 <= k < rows@.len() implies (#[trigger] rows@[k])@.len()
            >= rows@[0]@.len() by {
            assert(g[k] == rows@[k]@);
            assert(g[0] == rows@[0]@);
        }
        assert(g[0] == rows@[0]@);
        let m = Matrix::from_rows(rows);
        assert(m@ =~= g) by {
            assert forall|k: int| 0 <= k < g.len() implies m@[k] == g[k] by {
                assert(g[k] == rows@[k]@);
                assert(rows@[k]@.take(m.spec_cols() as int) =~= rows@[k]@);
            }
        }
        Ok(m)
    }

    /// The text of the problem: `Ab=` and, on the next line, the augmented
    /// system.
    pub fn to_text(&self) -> (r: Result<String, DimensionError>)
        ensures
            match augmented(self.target, self.dependencies@) {
                Some(ab) => if self.dependencies@.len() >= usize::MAX {
                    r is Err && r->Err_0 == DimensionError::Overflow
                } else {
                    r is Ok && r->Ok_0@ == "Ab=\n"@ + grid_text(ab)
                },
                None => r is Err && r->Err_0 == DimensionError::Overflow,
            },
    {
        match self.augmented_matrix() {
            Ok(ab) => {
                let mut out = String::new();
                out.append("Ab=\n");
                let t = ab.to_text();
                out.append(t.as_str());
                assert(out@ =~= "Ab=\n"@ + grid_text(ab@));
                Ok(out)
            },
            Err(_) => Err(DimensionError::Overflow),
        }
    }

    /// Solves the problem: the exponents of the dependencies whose product of
    /// powers has the dimension of the target.
    ///
    /// The result is exactly [`spec_solve`], and an outcome means what
    /// [`outcome_means`] says of it.
    pub fn solve(&self) -> (r: Result<DimensionalAnalysisSolution, DimensionError>)
        ensures
            match spec_solve(self.target, self.dependencies@) {
                Ok(o) => r is Ok && r->Ok_0@ == o && r->Ok_0.wf(),
                Err(e) => r is Err && r->Err_0 == e,
            },
            r matches Ok(solution) ==> outcome_means(self.target, self.dependencies@, solution@),
    {
        let r = self.solve_system();
        proof {
            if r is Ok {
                lemma_solve_outcome(self.target, self.dependencies@);
            }
        }
        r
    }

    /// Builds the system, reduces it and reads the outcome off it.
    fn solve_system(&self) -> (r: Result<DimensionalAnalysisSolution, DimensionError>)
        ensures
            match spec_solve(self.target, self.dependencies@) {
                Ok(o) => r is Ok && r->Ok_0@ == o && r->Ok_0.wf(),
                Err(e) => r is Err && r->Err_0 == e,
            },
            r is Ok ==> faithful(self.target) && all_faithful(self.dependencies@),
    {
        let n = self.dependencies.len();
        let mut ab = match self.augmented_matrix() {
            Ok(ab) => ab,
            Err(_) => {
                return Err(DimensionError::Overflow);
            },
        };
        let (m, _) = ab.dimensions();
        if m == 0 {
            let mut zeros: Vec<Rational> = Vec::new();
            let mut j: usize = 0;
            while j < n
                invariant
                    j <= n,
                    zeros@.len() == j,
                    forall|k: int| 0 <= k < j ==> (#[trigger] zeros@[k]) == Rational::spec_from_integer(0),
                decreases n - j,
            {
                zeros.push(Rational::zero());
                j += 1;
            }
            let x = Matrix::from_col(zeros);
            assert(column(x@, 0) =~= zero_row(n as nat)) by {
                assert forall|k: int| 0 <= k < n implies column(x@, 0)[k] == zero_row(n as nat)[k] by {
                    assert(x@[k] == seq![zeros@[k]]);
                }
            }
            return Ok(DimensionalAnalysisSolution::UniqueSolution(x));
        }
        let ghost system = ab@;
        let rank = match ab.reduce_in_place() {
            Ok(rank) => rank,
            Err(_) => {
                return Err(DimensionError::Overflow);
            },
        };
        let mut i: usize = 0;
        while i < m
            invariant
                i <= m,
                m == ab.spec_rows(),
                m > 0,
                ab.wf(),
                ab.spec_cols() == n + 1,
                n == self.dependencies@.len(),
                n < usize::MAX,
                system.len() > 0,
                faithful(self.target),
                all_faithful(self.dependencies@),
                augmented(self.target, self.dependencies@) == Some(system),
                reduce(system, (n + 1) as nat) == Some((ab@, rank as nat)),
                forall|k: int| 0 <= k < i ==> !contradictory(#[trigger] ab@[k], n as nat),
            decreases m - i,
        {
            let row = match ab.row(i) {
                Ok(row) => row,
                Err(_) => {
                    // the index lies within the matrix
                    assert(false);
                    return Err(DimensionError::Overflow);
                },
            };
            if contradictory_exec(&row, n) {
                assert(contradictory(ab@[i as int], n as nat));
                return Ok(DimensionalAnalysisSolution::NoSolution);
            }
            i += 1;
        }
        assert(!has_contradiction(ab@, n as nat));
        if rank < n {
            let mut a_rows: Vec<Vec<Rational>> = Vec::new();
            let mut b_col: Vec<Rational> = Vec::new();
            let mut i: usize = 0;
            while i < m
                invariant
                    i <= m,
                    m == ab.spec_rows(),
                    m > 0,
                    n > 0,
                    ab.wf(),
                    ab.spec_cols() == n + 1,
                    a_rows@.len() == i,
                    b_col@.len() == i,
                    forall|k: int| 0 <= k < i ==> (#[trigger] a_rows@[k])@ == ab@[k].take(n as int),
                    forall|k: int| 0 <= k < i ==> (#[trigger] b_col@[k]) == ab@[k][n as int],
                decreases m - i,
            {
                let row = match ab.row(i) {
                    Ok(row) => row,
                    Err(_) => {
                        // the index lies within the matrix
                        assert(false);
                        return Err(DimensionError::Overflow);
                    },
                };
                let mut left: Vec<Rational> = Vec::new();
                let mut j: usize = 0;
                while j < n
                    invariant
                        j <= n < row@.len(),
                        left@.len() == j,
                        forall|k: int| 0 <= k < j ==> (#[trigger] left@[k]) == row@[k],
                    decreases n - j,
                {
                    left.push(row[j]);
                    j += 1;
                }
                assert(left@ =~= row@.take(n as int));
                a_rows.push(left);
                b_col.push(row[n]);
                i += 1;
            }
            assert(a_rows@[0]@ == ab@[0].take(n as int));
            let reduced_a = Matrix::from_rows(a_rows);
            let reduced_b = Matrix::from_col(b_col);
            assert(reduced_a@ =~= coefficients(ab@, n as int)) by {
                assert forall|k: int| 0 <= k < m implies reduced_a@[k] == coefficients(
                    ab@,
                    n as int,
                )[k] by {
                    assert(a_rows@[k]@ == ab@[k].take(n as int));
                    assert(ab@[k].take(n as int).take(n as int) =~= ab@[k].take(n as int));
                }
            }
            assert(reduced_b@ =~= right_hand_side(ab@, n as int));
            return Ok(
                DimensionalAnalysisSolution::MultipleSolutions { rank, n, reduced_a, reduced_b },
            );
        }
        let mut x: Vec<Rational> = Vec::new();
        let mut j: usize = 0;
        while j < n
            invariant
                j <= n <= rank <= m,
                m == ab.spec_rows(),
                ab.wf(),
                ab.spec_cols() == n + 1,
                x@.len() == j,
                forall|k: int| 0 <= k < j ==> (#[trigger] x@[k]) == ab@[k][n as int],
            decreases n - j,
        {
            match ab.at(j, n) {
                Ok(e) => {
                    x.push(e);
                },
                Err(_) => {
                    // the index lies within the matrix
                    assert(false);
                    return Err(DimensionError::Overflow);
                },
            }
            j += 1;
        }
        let solution = Matrix::from_col(x);
        assert(column(solution@, 0) =~= last_column(ab@, n as nat)) by {
            assert forall|k: int| 0 <= k < n implies column(solution@, 0)[k] == ab@[k][n as int] by {
                assert(solution@[k] == seq![x@[k]]);
            }
        }
        Ok(DimensionalAnalysisSolution::UniqueSolution(solution))
    }
}

} // verus!
