//! A dense matrix of exact rationals with elementary row operations and
//! reduction to reduced row-echelon form.

use crate::echelon::{
    add_scaled_row, add_term, backward_pass, clear_entry, eliminate_rows, first_nonzero,
    forward_pass, grid_wf, normalize_row, pivot_col, pivot_row, reduce, row_wf, scale_row,
    swap_rows,
};
use crate::echelon_laws::{is_rref, lemma_pivot_col, lemma_pivot_row, lemma_reduce_is_rref};
use crate::linear_systems::{lemma_reduce_solutions, solves};
use crate::rational::Rational;
use crate::reals::abs_real;
use crate::text::{push_char, ratio_text};
use vstd::string::StringExecFns;
use vstd::prelude::*;

verus! {

/// `<[T]>::swap` of the standard library: exchanges the elements at the two
/// positions, which must both lie in the slice.
pub assume_specification<T>[ <[T]>::swap ](s: &mut [T], a: usize, b: usize)
    requires
        a < old(s)@.len(),
        b < old(s)@.len(),
    ensures
        final(s)@ == old(s)@.update(a as int, old(s)@[b as int]).update(b as int, old(s)@[a as int]),
;

/// Why an operation on a matrix was refused.
#[derive(Clone, Copy, Debug, PartialEq, Eq, Structural)]
pub enum MatrixError {
    /// A row or column index lies outside the shape of the matrix.
    IndexOutOfRange,
    /// An intermediate value does not fit the rational type.
    Overflow,
}

/// A matrix of `rows × cols` rationals, addressed by `(row, column)`.
#[derive(Clone, Debug, PartialEq)]
pub struct Matrix {
    data: Vec<Vec<Rational>>,
    rows: usize,
    cols: usize,
}

/// The rows of a vector of vectors as sequences.
pub open spec fn rows_view(d: Seq<Vec<Rational>>) -> Seq<Seq<Rational>> {
    Seq::new(d.len(), |i: int| d[i]@)
}

/// The row with the entries at `a` and `b` exchanged.
pub open spec fn swap_entries(row: Seq<Rational>, a: int, b: int) -> Seq<Rational> {
    row.update(a, row[b]).update(b, row[a])
}

/// The grid with the columns `a` and `b` exchanged.
pub open spec fn swap_cols(g: Seq<Seq<Rational>>, a: int, b: int) -> Seq<Seq<Rational>> {
    Seq::new(g.len(), |i: int| swap_entries(g[i], a, b))
}

/// Column `j` of the grid, top to bottom.
pub open spec fn column(g: Seq<Seq<Rational>>, j: int) -> Seq<Rational> {
    Seq::new(g.len(), |i: int| g[i][j])
}

/// A row of `cols` zeros.
pub open spec fn zero_row(cols: nat) -> Seq<Rational> {
    Seq::new(cols, |j: int| Rational::spec_from_integer(0))
}

/// A grid of `rows × cols` zeros.
pub open spec fn zero_grid(rows: nat, cols: nat) -> Seq<Seq<Rational>> {
    Seq::new(rows, |i: int| zero_row(cols))
}

/// A row of `cols` zeros.
fn new_zero_row(cols: usize) -> (r: Vec<Rational>)
    ensures
        r@ == zero_row(cols as nat),
        row_wf(r@),
{
    let mut r: Vec<Rational> = Vec::new();
    let mut j: usize = 0;
    while j < cols
        invariant
            j <= cols,
            r@.len() == j,
            forall|k: int| 0 <= k < j ==> r@[k] == Rational::spec_from_integer(0),
            row_wf(r@),
        decreases cols - j,
    {
        r.push(Rational::zero());
        j += 1;
    }
    assert(r@ =~= zero_row(cols as nat));
    r
}

/// A copy of the row.
fn copy_row(v: &Vec<Rational>) -> (r: Vec<Rational>)
    ensures
        r@ == v@,
{
    let mut r: Vec<Rational> = Vec::new();
    let mut j: usize = 0;
    while j < v.len()
        invariant
            j <= v.len(),
            r@.len() == j,
            forall|k: int| 0 <= k < j ==> r@[k] == v@[k],
        decreases v.len() - j,
    {
        r.push(v[j]);
        j += 1;
    }
    assert(r@ =~= v@);
    r
}

/// A copy of the rows.
fn copy_grid(g: &Vec<Vec<Rational>>) -> (r: Vec<Vec<Rational>>)
    ensures
        rows_view(r@) == rows_view(g@),
{
    let mut r: Vec<Vec<Rational>> = Vec::new();
    let mut i: usize = 0;
    while i < g.len()
        invariant
            i <= g.len(),
            r@.len() == i,
            forall|k: int| 0 <= k < i ==> r@[k]@ == g@[k]@,
        decreases g.len() - i,
    {
        r.push(copy_row(&g[i]));
        i += 1;
    }
    assert(rows_view(r@) =~= rows_view(g@));
    r
}

/// Copies the first `cols` entries of `v`.
fn copy_prefix(v: &Vec<Rational>, cols: usize) -> (r: Vec<Rational>)
    requires
        cols <= v.len(),
    ensures
        r@ == v@.take(cols as int),
        row_wf(r@),
{
    let mut r: Vec<Rational> = Vec::new();
    let mut j: usize = 0;
    while j < cols
        invariant
            j <= cols <= v.len(),
            r@.len() == j,
            forall|k: int| 0 <= k < j ==> r@[k] == v@[k],
            row_wf(r@),
        decreases cols - j,
    {
        let x = v[j];
        proof {
            use_type_invariant(&x);
        }
        r.push(x);
        j += 1;
    }
    assert(r@ =~= v@.take(cols as int));
    r
}

/// The row with every entry multiplied by `s`, or `None` on overflow.
fn scale_row_exec(row: &Vec<Rational>, s: &Rational) -> (r: Option<Vec<Rational>>)
    ensures
        r matches Some(v) ==> scale_row(row@, *s) == Some(v@) && row_wf(v@),
        r is None ==> scale_row(row@, *s) is None,
{
    let mut out: Vec<Rational> = Vec::new();
    let mut j: usize = 0;
    while j < row.len()
        invariant
            j <= row.len(),
            out@.len() == j,
            row_wf(out@),
            forall|k: int| 0 <= k < j ==> (#[trigger] row@[k]).spec_checked_mul(*s) == Some(out@[k]),
        decreases row.len() - j,
    {
        match row[j].checked_mul(s) {
            Some(x) => {
                out.push(x);
            },
            None => {
                assert(row@[j as int].spec_checked_mul(*s) is None);
                return None;
            },
        }
        j += 1;
    }
    assert(out@ =~= scale_row(row@, *s).unwrap());
    Some(out)
}

/// `target + f * source`, or `None` on overflow.
fn add_scaled_row_exec(target: &Vec<Rational>, source: &Vec<Rational>, f: &Rational) -> (r: Option<
    Vec<Rational>,
>)
    requires
        source@.len() == target@.len(),
    ensures
        r matches Some(v) ==> add_scaled_row(target@, source@, *f) == Some(v@) && row_wf(v@),
        r is None ==> add_scaled_row(target@, source@, *f) is None,
{
    let mut out: Vec<Rational> = Vec::new();
    let mut j: usize = 0;
    while j < target.len()
        invariant
            j <= target.len(),
            source@.len() == target@.len(),
            out@.len() == j,
            row_wf(out@),
            forall|k: int|
                0 <= k < j ==> (#[trigger] add_term(target@[k], source@[k], *f)) == Some(out@[k]),
        decreases target.len() - j,
    {
        let sum = match source[j].checked_mul(f) {
            Some(p) => target[j].checked_add(&p),
            None => None,
        };
        match sum {
            Some(x) => {
                out.push(x);
            },
            None => {
                assert(add_term(target@[j as int], source@[j as int], *f) is None);
                return None;
            },
        }
        j += 1;
    }
    assert(out@ =~= add_scaled_row(target@, source@, *f).unwrap());
    Some(out)
}

/// The row divided by its entry in column `col`, or `None` on overflow.
fn normalize_row_exec(row: &Vec<Rational>, col: usize) -> (r: Option<Vec<Rational>>)
    requires
        col < row@.len(),
        row_wf(row@),
    ensures
        r matches Some(v) ==> normalize_row(row@, col as int) == Some(v@) && row_wf(v@),
        r is None ==> normalize_row(row@, col as int) is None,
{
    let pivot = row[col];
    if pivot.is_one() {
        Some(copy_row(row))
    } else {
        match Rational::one().checked_div(&pivot) {
            Some(inv) => scale_row_exec(row, &inv),
            None => None,
        }
    }
}

/// `target` with column `col` cancelled by a multiple of `source`, or
/// `None` on overflow.
fn clear_entry_exec(target: &Vec<Rational>, source: &Vec<Rational>, col: usize) -> (r: Option<
    Vec<Rational>,
>)
    requires
        col < target@.len(),
        source@.len() == target@.len(),
        row_wf(target@),
    ensures
        r matches Some(v) ==> clear_entry(target@, source@, col as int) == Some(v@) && row_wf(v@),
        r is None ==> clear_entry(target@, source@, col as int) is None,
{
    let factor = target[col];
    if factor.is_zero() {
        Some(copy_row(target))
    } else {
        let minus = factor.neg();
        add_scaled_row_exec(target, source, &minus)
    }
}

/// The first row of largest absolute value in column `col` among the rows
/// `lo..hi`.
fn find_pivot_row(g: &Vec<Vec<Rational>>, col: usize, lo: usize, hi: usize) -> (p: usize)
    requires
        lo < hi <= g@.len(),
        forall|i: int| 0 <= i < g@.len() ==> col < (#[trigger] g@[i])@.len(),
    ensures
        p == pivot_row(rows_view(g@), col as int, lo as int, hi as int),
        lo <= p < hi,
{
    let mut p: usize = lo;
    let mut best = g[lo][col].abs();
    let mut k: usize = lo + 1;
    while k < hi
        invariant
            lo < k <= hi <= g@.len(),
            forall|i: int| 0 <= i < g@.len() ==> col < (#[trigger] g@[i])@.len(),
            lo <= p < k,
            p == pivot_row(rows_view(g@), col as int, lo as int, k as int),
            best == g@[p as int]@[col as int].spec_abs(),
            best.value() == abs_real(g@[p as int]@[col as int].value()),
        decreases hi - k,
    {
        let v = g[k][col].abs();
        if best.less_than(&v) {
            p = k;
            best = v;
        }
        k += 1;
    }
    p
}

/// The first column of largest absolute value in the row among the columns
/// `lo..hi`.
fn find_pivot_col(row: &Vec<Rational>, lo: usize, hi: usize) -> (p: usize)
    requires
        lo < hi <= row@.len(),
    ensures
        p == pivot_col(row@, lo as int, hi as int),
        lo <= p < hi,
{
    let mut p: usize = lo;
    let mut best = row[lo].abs();
    let mut k: usize = lo + 1;
    while k < hi
        invariant
            lo < k <= hi <= row@.len(),
            lo <= p < k,
            p == pivot_col(row@, lo as int, k as int),
            best == row@[p as int].spec_abs(),
            best.value() == abs_real(row@[p as int].value()),
        decreases hi - k,
    {
        let v = row[k].abs();
        if best.less_than(&v) {
            p = k;
            best = v;
        }
        k += 1;
    }
    p
}

/// The first column at or after `from` in which the row is not zero.
fn first_nonzero_exec(row: &Vec<Rational>, from: usize) -> (c: usize)
    requires
        from <= row@.len(),
    ensures
        c == first_nonzero(row@, from as int),
        from <= c <= row@.len(),
{
    let mut c: usize = from;
    while c < row.len() && row[c].is_zero()
        invariant
            from <= c <= row@.len(),
            first_nonzero(row@, c as int) == first_nonzero(row@, from as int),
        decreases row.len() - c,
    {
        c += 1;
    }
    c
}

/// Cancels column `col` of the rows `lo..hi` by multiples of row `pivot`;
/// `false` on overflow.
fn eliminate_rows_exec(g: &mut Vec<Vec<Rational>>, pivot: usize, col: usize, lo: usize, hi: usize) -> (ok:
    bool)
    requires
        lo <= hi <= old(g)@.len(),
        pivot < old(g)@.len(),
        !(lo <= pivot < hi),
        col < old(g)@[pivot as int]@.len(),
        grid_wf(rows_view(old(g)@), old(g)@[pivot as int]@.len() as nat),
    ensures
        final(g)@.len() == old(g)@.len(),
        grid_wf(rows_view(final(g)@), old(g)@[pivot as int]@.len() as nat),
        ok ==> eliminate_rows(rows_view(old(g)@), pivot as int, col as int, lo as int, hi as int)
            == Some(rows_view(final(g)@)),
        !ok ==> eliminate_rows(rows_view(old(g)@), pivot as int, col as int, lo as int, hi as int)
            is None,
{
    let ghost before = rows_view(g@);
    let ghost cols = g@[pivot as int]@.len() as nat;
    let mut k: usize = lo;
    while k < hi
        invariant
            lo <= k <= hi <= g@.len(),
            g@.len() == old(g)@.len(),
            before == rows_view(old(g)@),
            pivot < g@.len(),
            !(lo <= pivot < hi),
            col < cols,
            grid_wf(before, cols),
            grid_wf(rows_view(g@), cols),
            forall|i: int|
                lo <= i < k ==> (#[trigger] clear_entry(before[i], before[pivot as int], col as int))
                    == Some(g@[i]@),
            forall|i: int| 0 <= i < g@.len() && !(lo <= i < k) ==> (#[trigger] g@[i])@ == before[i],
        decreases hi - k,
    {
        assert(rows_view(g@)[k as int] == g@[k as int]@);
        assert(rows_view(g@)[pivot as int] == g@[pivot as int]@);
        assert(before[k as int] == g@[k as int]@);
        assert(before[pivot as int] == g@[pivot as int]@);
        match clear_entry_exec(&g[k], &g[pivot], col) {
            Some(r) => {
                let ghost prev = rows_view(g@);
                g[k] = r;
                assert(rows_view(g@) =~= prev.update(k as int, r@));
            },
            None => {
                assert(clear_entry(before[k as int], before[pivot as int], col as int) is None);
                return false;
            },
        }
        k += 1;
    }
    assert(rows_view(g@) =~= eliminate_rows(before, pivot as int, col as int, lo as int, hi as int).unwrap());
    true
}

/// The forward pass of the reduction: the grid in echelon form and the
/// number of pivots, or `None` on overflow.
fn forward_exec(g: &mut Vec<Vec<Rational>>, cols: usize) -> (r: Option<usize>)
    requires
        grid_wf(rows_view(old(g)@), cols as nat),
    ensures
        final(g)@.len() == old(g)@.len(),
        grid_wf(rows_view(final(g)@), cols as nat),
        r matches Some(rank) ==> forward_pass(rows_view(old(g)@), cols as nat, 0, 0) == Some(
            (rows_view(final(g)@), rank as nat),
        ) && rank <= old(g)@.len(),
        r is None ==> forward_pass(rows_view(old(g)@), cols as nat, 0, 0) is None,
{
    let rows = g.len();
    let mut row: usize = 0;
    let mut col: usize = 0;
    while row < rows && col < cols
        invariant
            row <= rows,
            col <= cols,
            g@.len() == rows,
            rows == old(g)@.len(),
            grid_wf(rows_view(g@), cols as nat),
            forward_pass(rows_view(g@), cols as nat, row as nat, col as nat) == forward_pass(
                rows_view(old(g)@),
                cols as nat,
                0,
                0,
            ),
        decreases cols - col,
    {
        let ghost start = rows_view(g@);
        assert forall|i: int| 0 <= i < g@.len() implies col < (#[trigger] g@[i])@.len() by {
            assert(rows_view(g@)[i] == g@[i]@);
        }
        let p = find_pivot_row(g, col, row, rows);
        assert(start[p as int] == g@[p as int]@);
        if g[p][col].is_zero() {
            col += 1;
        } else {
            g.swap(row, p);
            assert(rows_view(g@) =~= swap_rows(start, row as int, p as int));
            let ghost swapped = rows_view(g@);
            assert(swapped[row as int] == g@[row as int]@);
            match normalize_row_exec(&g[row], col) {
                Some(r) => {
                    g[row] = r;
                    assert(rows_view(g@) =~= swapped.update(row as int, r@));
                    assert(rows_view(g@)[row as int] == g@[row as int]@);
                    if !eliminate_rows_exec(g, row, col, row + 1, rows) {
                        return None;
                    }
                    row += 1;
                    col += 1;
                },
                None => {
                    return None;
                },
            }
        }
    }
    Some(row)
}

/// The backward pass of the reduction: clears the entries above the
/// pivots; `false` on overflow.
fn backward_exec(g: &mut Vec<Vec<Rational>>, cols: usize, rank: usize) -> (ok: bool)
    requires
        grid_wf(rows_view(old(g)@), cols as nat),
        rank <= old(g)@.len(),
    ensures
        final(g)@.len() == old(g)@.len(),
        grid_wf(rows_view(final(g)@), cols as nat),
        ok ==> backward_pass(rows_view(old(g)@), rank as nat, 0, 0) == Some(rows_view(final(g)@)),
        !ok ==> backward_pass(rows_view(old(g)@), rank as nat, 0, 0) is None,
{
    let mut row: usize = 0;
    let mut col: usize = 0;
    while row < rank
        invariant
            row <= rank <= g@.len(),
            col <= cols,
            g@.len() == old(g)@.len(),
            grid_wf(rows_view(g@), cols as nat),
            backward_pass(rows_view(g@), rank as nat, row as nat, col as nat) == backward_pass(
                rows_view(old(g)@),
                rank as nat,
                0,
                0,
            ),
        decreases rank - row,
    {
        assert(rows_view(g@)[row as int] == g@[row as int]@);
        let c = first_nonzero_exec(&g[row], col);
        if c >= cols {
            return true;
        }
        if !eliminate_rows_exec(g, row, c, 0, row) {
            return false;
        }
        row += 1;
        col = c + 1;
    }
    true
}

/// The text of the first `n` entries of the row, separated by commas.
pub open spec fn row_text(row: Seq<Rational>, n: nat) -> Seq<char>
    decreases n,
{
    if n == 0 {
        Seq::empty()
    } else {
        row_text(row, (n - 1) as nat) + (if n > 1 {
            seq![',']
        } else {
            Seq::empty()
        }) + ratio_text(row[n - 1].spec_numer(), row[n - 1].spec_denom())
    }
}

/// The text of the first `n` rows of the grid: each row in brackets, a comma
/// and a line break with one space between two rows.
pub open spec fn rows_text(g: Seq<Seq<Rational>>, n: nat) -> Seq<char>
    decreases n,
{
    if n == 0 {
        Seq::empty()
    } else {
        rows_text(g, (n - 1) as nat) + (if n > 1 {
            seq![',', '\n', ' ', '[']
        } else {
            seq!['[']
        }) + row_text(g[n - 1], g[n - 1].len()) + seq![']']
    }
}

/// The text of the grid: its rows within an outer pair of brackets.
pub open spec fn grid_text(g: Seq<Seq<Rational>>) -> Seq<char> {
    seq!['['] + rows_text(g, g.len()) + seq![']']
}

impl View for Matrix {
    type V = Seq<Seq<Rational>>;

    /// The rows of the matrix, top to bottom.
    closed spec fn view(&self) -> Seq<Seq<Rational>> {
        rows_view(self.data@)
    }
}

impl Matrix {
    /// The number of rows.
    pub closed spec fn spec_rows(&self) -> nat {
        self.rows as nat
    }

    /// The number of columns.
    pub closed spec fn spec_cols(&self) -> nat {
        self.cols as nat
    }

    /// The matrix holds `spec_rows()` rows of `spec_cols()` well-formed
    /// entries each.
    pub open spec fn wf(&self) -> bool {
        &&& self@.len() == self.spec_rows()
        &&& grid_wf(self@, self.spec_cols())
    }

    /// Whether the matrix has no entry.
    pub open spec fn is_empty(&self) -> bool {
        self.spec_rows() == 0 || self.spec_cols() == 0
    }

    /// A matrix of zeros.
    pub fn new(rows: usize, cols: usize) -> (m: Matrix)
        ensures
            m.wf(),
            m.spec_rows() == rows,
            m.spec_cols() == cols,
            m@ == zero_grid(rows as nat, cols as nat),
    {
        let mut data: Vec<Vec<Rational>> = Vec::new();
        let mut i: usize = 0;
        while i < rows
            invariant
                i <= rows,
                data@.len() == i,
                forall|k: int| 0 <= k < i ==> (#[trigger] data@[k])@ == zero_row(cols as nat),
            decreases rows - i,
        {
            data.push(new_zero_row(cols));
            i += 1;
        }
        let m = Matrix { data, rows, cols };
        proof {
            Rational::lemma_from_integer(0);
            assert(m@ =~= zero_grid(rows as nat, cols as nat));
        }
        m
    }

    /// A matrix of one column; an empty vector gives the `0 × 0` matrix.
    pub fn from_col(col: Vec<Rational>) -> (m: Matrix)
        ensures
            m.wf(),
            m.spec_rows() == col@.len(),
            m.spec_cols() == (if col@.len() == 0 { 0nat } else { 1nat }),
            forall|i: int| 0 <= i < col@.len() ==> (#[trigger] m@[i]) == seq![col@[i]],
    {
        if col.len() == 0 {
            return Matrix::new(0, 0);
        }
        let mut data: Vec<Vec<Rational>> = Vec::new();
        let mut i: usize = 0;
        while i < col.len()
            invariant
                i <= col.len(),
                data@.len() == i,
                forall|k: int| 0 <= k < i ==> (#[trigger] data@[k])@ == seq![col@[k]] && row_wf(data@[k]@),
            decreases col.len() - i,
        {
            let x = col[i];
            proof {
                use_type_invariant(&x);
            }
            let mut row: Vec<Rational> = Vec::new();
            row.push(x);
            assert(row@ =~= seq![col@[i as int]]);
            data.push(row);
            i += 1;
        }
        Matrix { data, rows: col.len(), cols: 1 }
    }

    /// A matrix of one row; an empty vector gives the `0 × 0` matrix.
    pub fn from_row(row: Vec<Rational>) -> (m: Matrix)
        ensures
            m.wf(),
            m.spec_rows() == (if row@.len() == 0 { 0nat } else { 1nat }),
            m.spec_cols() == row@.len(),
            row@.len() > 0 ==> m@ == seq![row@],
    {
        if row.len() == 0 {
            return Matrix::new(0, 0);
        }
        let cols = row.len();
        let copy = copy_prefix(&row, cols);
        assert(copy@ =~= row@);
        let mut data: Vec<Vec<Rational>> = Vec::new();
        data.push(copy);
        let m = Matrix { data, rows: 1, cols };
        assert(m@ =~= seq![row@]);
        m
    }

    /// A matrix from its columns, each cut to the length of the first; an
    /// empty vector gives the `0 × 0` matrix.
    pub fn from_cols(cols: Vec<Vec<Rational>>) -> (m: Matrix)
        requires
            forall|j: int| 0 <= j < cols@.len() ==> (#[trigger] cols@[j])@.len() >= cols@[0]@.len(),
        ensures
            m.wf(),
            m.spec_cols() == cols@.len(),
            m.spec_rows() == (if cols@.len() == 0 { 0nat } else { cols@[0]@.len() }),
            forall|i: int, j: int|
                0 <= i < m.spec_rows() && 0 <= j < m.spec_cols() ==> (#[trigger] m@[i][j])
                    == cols@[j]@[i],
    {
        if cols.len() == 0 {
            return Matrix::new(0, 0);
        }
        let rows_count = cols[0].len();
        let cols_count = cols.len();
        let mut data: Vec<Vec<Rational>> = Vec::new();
        let mut i: usize = 0;
        while i < rows_count
            invariant
                i <= rows_count,
                rows_count == cols@[0]@.len(),
                cols_count == cols@.len(),
                forall|j: int| 0 <= j < cols@.len() ==> (#[trigger] cols@[j])@.len() >= rows_count,
                data@.len() == i,
                forall|k: int|
                    #![trigger data@[k]]
                    0 <= k < i ==> data@[k]@.len() == cols_count && row_wf(data@[k]@),
                forall|k: int, j: int|
                    0 <= k < i && 0 <= j < cols_count ==> (#[trigger] data@[k]@[j]) == cols@[j]@[k],
            decreases rows_count - i,
        {
            let mut row: Vec<Rational> = Vec::new();
            let mut j: usize = 0;
            while j < cols_count
                invariant
                    j <= cols_count,
                    i < rows_count,
                    cols_count == cols@.len(),
                    forall|c: int|
                        0 <= c < cols@.len() ==> (#[trigger] cols@[c])@.len() >= rows_count,
                    row@.len() == j,
                    row_wf(row@),
                    forall|c: int| 0 <= c < j ==> (#[trigger] row@[c]) == cols@[c]@[i as int],
                decreases cols_count - j,
            {
                let x = cols[j][i];
                proof {
                    use_type_invariant(&x);
                }
                row.push(x);
                j += 1;
            }
            data.push(row);
            i += 1;
        }
        Matrix { data, rows: rows_count, cols: cols_count }
    }

    /// A matrix from its rows, each cut to the length of the first; an empty
    /// vector gives the `0 × 0` matrix.
    pub fn from_rows(rows: Vec<Vec<Rational>>) -> (m: Matrix)
        requires
            forall|i: int| 0 <= i < rows@.len() ==> (#[trigger] rows@[i])@.len() >= rows@[0]@.len(),
        ensures
            m.wf(),
            m.spec_rows() == rows@.len(),
            m.spec_cols() == (if rows@.len() == 0 { 0nat } else { rows@[0]@.len() }),
            forall|i: int|
                0 <= i < rows@.len() ==> (#[trigger] m@[i]) == rows@[i]@.take(m.spec_cols() as int),
    {
        if rows.len() == 0 {
            return Matrix::new(0, 0);
        }
        let rows_count = rows.len();
        let cols_count = rows[0].len();
        let mut data: Vec<Vec<Rational>> = Vec::new();
        let mut i: usize = 0;
        while i < rows_count
            invariant
                i <= rows_count,
                rows_count == rows@.len(),
                cols_count == rows@[0]@.len(),
                forall|k: int| 0 <= k < rows@.len() ==> (#[trigger] rows@[k])@.len() >= cols_count,
                data@.len() == i,
                forall|k: int|
                    #![trigger data@[k]]
                    0 <= k < i ==> data@[k]@ == rows@[k]@.take(cols_count as int) && row_wf(
                        data@[k]@,
                    ),
            decreases rows_count - i,
        {
            data.push(copy_prefix(&rows[i], cols_count));
            i += 1;
        }
        Matrix { data, rows: rows_count, cols: cols_count }
    }

    /// The numbers of rows and of columns.
    pub fn dimensions(&self) -> (d: (usize, usize))
        ensures
            d.0 == self.spec_rows(),
            d.1 == self.spec_cols(),
    {
        (self.rows, self.cols)
    }

    /// The entry at `(i, j)`.
    pub fn at(&self, i: usize, j: usize) -> (r: Result<Rational, MatrixError>)
        requires
            self.wf(),
        ensures
            i < self.spec_rows() && j < self.spec_cols() ==> r == Ok::<Rational, MatrixError>(
                self@[i as int][j as int],
            ),
            !(i < self.spec_rows() && j < self.spec_cols()) ==> r == Err::<Rational, MatrixError>(
                MatrixError::IndexOutOfRange,
            ),
    {
        if i < self.rows && j < self.cols {
            assert(self@[i as int] == self.data@[i as int]@);
            Ok(self.data[i][j])
        } else {
            Err(MatrixError::IndexOutOfRange)
        }
    }

    /// Replaces the entry at `(i, j)`.
    pub fn set(&mut self, i: usize, j: usize, value: Rational) -> (r: Result<(), MatrixError>)
        requires
            old(self).wf(),
        ensures
            final(self).wf(),
            final(self).spec_rows() == old(self).spec_rows(),
            final(self).spec_cols() == old(self).spec_cols(),
            i < old(self).spec_rows() && j < old(self).spec_cols() ==> r is Ok && final(self)@
                == old(self)@.update(i as int, old(self)@[i as int].update(j as int, value)),
            !(i < old(self).spec_rows() && j < old(self).spec_cols()) ==> r == Err::<
                (),
                MatrixError,
            >(MatrixError::IndexOutOfRange) && final(self)@ == old(self)@,
    {
        if i < self.rows && j < self.cols {
            proof {
                use_type_invariant(&value);
            }
            assert(self@[i as int] == self.data@[i as int]@);
            self.data[i][j] = value;
            assert(self@ =~= old(self)@.update(i as int, old(self)@[i as int].update(j as int, value)));
            Ok(())
        } else {
            Err(MatrixError::IndexOutOfRange)
        }
    }

    /// A copy of row `i`; of a matrix without entries, the empty vector.
    pub fn row(&self, i: usize) -> (r: Result<Vec<Rational>, MatrixError>)
        requires
            self.wf(),
        ensures
            self.is_empty() ==> r is Ok && r->Ok_0@.len() == 0,
            !self.is_empty() && i < self.spec_rows() ==> r is Ok && r->Ok_0@ == self@[i as int],
            !self.is_empty() && i >= self.spec_rows() ==> r is Err && r->Err_0
                == MatrixError::IndexOutOfRange,
    {
        if self.rows == 0 || self.cols == 0 {
            return Ok(Vec::new());
        }
        if i >= self.rows {
            return Err(MatrixError::IndexOutOfRange);
        }
        assert(self@[i as int] == self.data@[i as int]@);
        Ok(copy_row(&self.data[i]))
    }

    /// A copy of column `j`; of a matrix without entries, the empty vector.
    pub fn col(&self, j: usize) -> (r: Result<Vec<Rational>, MatrixError>)
        requires
            self.wf(),
        ensures
            self.is_empty() ==> r is Ok && r->Ok_0@.len() == 0,
            !self.is_empty() && j < self.spec_cols() ==> r is Ok && r->Ok_0@ == column(
                self@,
                j as int,
            ),
            !self.is_empty() && j >= self.spec_cols() ==> r is Err && r->Err_0
                == MatrixError::IndexOutOfRange,
    {
        if self.rows == 0 || self.cols == 0 {
            return Ok(Vec::new());
        }
        if j >= self.cols {
            return Err(MatrixError::IndexOutOfRange);
        }
        let mut out: Vec<Rational> = Vec::new();
        let mut i: usize = 0;
        while i < self.rows
            invariant
                self.wf(),
                j < self.cols,
                i <= self.rows,
                out@.len() == i,
                forall|k: int| 0 <= k < i ==> (#[trigger] out@[k]) == self@[k][j as int],
            decreases self.rows - i,
        {
            assert(self@[i as int] == self.data@[i as int]@);
            out.push(self.data[i][j]);
            i += 1;
        }
        assert(out@ =~= column(self@, j as int));
        Ok(out)
    }

    /// Exchanges rows `i1` and `i2`; a matrix without entries is left as it
    /// is.
    pub fn swap_rows(&mut self, i1: usize, i2: usize) -> (r: Result<(), MatrixError>)
        requires
            old(self).wf(),
        ensures
            final(self).wf(),
            final(self).spec_rows() == old(self).spec_rows(),
            final(self).spec_cols() == old(self).spec_cols(),
            old(self).is_empty() ==> r is Ok && final(self)@ == old(self)@,
            !old(self).is_empty() && i1 < old(self).spec_rows() && i2 < old(self).spec_rows()
                ==> r is Ok && final(self)@ == swap_rows(old(self)@, i1 as int, i2 as int),
            !old(self).is_empty() && !(i1 < old(self).spec_rows() && i2 < old(self).spec_rows())
                ==> r == Err::<(), MatrixError>(MatrixError::IndexOutOfRange) && final(self)@
                == old(self)@,
    {
        if self.rows == 0 || self.cols == 0 {
            return Ok(());
        }
        if i1 >= self.rows || i2 >= self.rows {
            return Err(MatrixError::IndexOutOfRange);
        }
        self.data.swap(i1, i2);
        assert(self@ =~= swap_rows(old(self)@, i1 as int, i2 as int));
        Ok(())
    }

    /// Exchanges columns `j1` and `j2`; a matrix without entries is left as
    /// it is.
    pub fn swap_cols(&mut self, j1: usize, j2: usize) -> (r: Result<(), MatrixError>)
        requires
            old(self).wf(),
        ensures
            final(self).wf(),
            final(self).spec_rows() == old(self).spec_rows(),
            final(self).spec_cols() == old(self).spec_cols(),
            old(self).is_empty() ==> r is Ok && final(self)@ == old(self)@,
            !old(self).is_empty() && j1 < old(self).spec_cols() && j2 < old(self).spec_cols()
                ==> r is Ok && final(self)@ == swap_cols(old(self)@, j1 as int, j2 as int),
            !old(self).is_empty() && !(j1 < old(self).spec_cols() && j2 < old(self).spec_cols())
                ==> r == Err::<(), MatrixError>(MatrixError::IndexOutOfRange) && final(self)@
                == old(self)@,
    {
        if self.rows == 0 || self.cols == 0 {
            return Ok(());
        }
        if j1 >= self.cols || j2 >= self.cols {
            return Err(MatrixError::IndexOutOfRange);
        }
        let mut i: usize = 0;
        while i < self.rows
            invariant
                self.wf(),
                self.rows == old(self).rows,
                self.cols == old(self).cols,
                old(self).wf(),
                j1 < self.cols,
                j2 < self.cols,
                i <= self.rows,
                forall|k: int|
                    0 <= k < i ==> (#[trigger] self@[k]) == swap_entries(
                        old(self)@[k],
                        j1 as int,
                        j2 as int,
                    ),
                forall|k: int| i <= k < self.rows ==> (#[trigger] self@[k]) == old(self)@[k],
            decreases self.rows - i,
        {
            let ghost before = self@;
            assert(self@[i as int] == self.data@[i as int]@);
            self.data[i].swap(j1, j2);
            assert(self@ =~= before.update(
                i as int,
                swap_entries(before[i as int], j1 as int, j2 as int),
            ));
            i += 1;
        }
        assert(self@ =~= swap_cols(old(self)@, j1 as int, j2 as int));
        Ok(())
    }

    /// Multiplies every entry of row `i` by `scalar`; a matrix without
    /// entries is left as it is.
    pub fn mul_row(&mut self, i: usize, scalar: Rational) -> (r: Result<(), MatrixError>)
        requires
            old(self).wf(),
        ensures
            final(self).wf(),
            final(self).spec_rows() == old(self).spec_rows(),
            final(self).spec_cols() == old(self).spec_cols(),
            r == old(self).spec_mul_row(i, scalar).0,
            final(self)@ == old(self).spec_mul_row(i, scalar).1,
    {
        if self.rows == 0 || self.cols == 0 {
            return Ok(());
        }
        if i >= self.rows {
            return Err(MatrixError::IndexOutOfRange);
        }
        assert(self@[i as int] == self.data@[i as int]@);
        match scale_row_exec(&self.data[i], &scalar) {
            Some(row) => {
                self.data[i] = row;
                assert(self@ =~= old(self)@.update(i as int, row@));
                Ok(())
            },
            None => Err(MatrixError::Overflow),
        }
    }

    /// What [`Matrix::mul_row`] returns and leaves behind.
    pub open spec fn spec_mul_row(&self, i: usize, scalar: Rational) -> (
        Result<(), MatrixError>,
        Seq<Seq<Rational>>,
    ) {
        if self.is_empty() {
            (Ok(()), self@)
        } else if i >= self.spec_rows() {
            (Err(MatrixError::IndexOutOfRange), self@)
        } else {
            match scale_row(self@[i as int], scalar) {
                Some(row) => (Ok(()), self@.update(i as int, row)),
                None => (Err(MatrixError::Overflow), self@),
            }
        }
    }

    /// Adds `scalar` times row `i2` to row `i1`; a matrix without entries is
    /// left as it is.
    pub fn add_mul_row(&mut self, i1: usize, i2: usize, scalar: Rational) -> (r: Result<
        (),
        MatrixError,
    >)
        requires
            old(self).wf(),
        ensures
            final(self).wf(),
            final(self).spec_rows() == old(self).spec_rows(),
            final(self).spec_cols() == old(self).spec_cols(),
            r == old(self).spec_add_mul_row(i1, i2, scalar).0,
            final(self)@ == old(self).spec_add_mul_row(i1, i2, scalar).1,
    {
        if self.rows == 0 || self.cols == 0 {
            return Ok(());
        }
        if i1 >= self.rows || i2 >= self.rows {
            return Err(MatrixError::IndexOutOfRange);
        }
        assert(self@[i1 as int] == self.data@[i1 as int]@);
        assert(self@[i2 as int] == self.data@[i2 as int]@);
        match add_scaled_row_exec(&self.data[i1], &self.data[i2], &scalar) {
            Some(row) => {
                self.data[i1] = row;
                assert(self@ =~= old(self)@.update(i1 as int, row@));
                Ok(())
            },
            None => Err(MatrixError::Overflow),
        }
    }

    /// What [`Matrix::add_mul_row`] returns and leaves behind.
    pub open spec fn spec_add_mul_row(&self, i1: usize, i2: usize, scalar: Rational) -> (
        Result<(), MatrixError>,
        Seq<Seq<Rational>>,
    ) {
        if self.is_empty() {
            (Ok(()), self@)
        } else if i1 >= self.spec_rows() || i2 >= self.spec_rows() {
            (Err(MatrixError::IndexOutOfRange), self@)
        } else {
            match add_scaled_row(self@[i1 as int], self@[i2 as int], scalar) {
                Some(row) => (Ok(()), self@.update(i1 as int, row)),
                None => (Err(MatrixError::Overflow), self@),
            }
        }
    }

    /// The column and the absolute value of the entry of largest absolute
    /// value in row `i`, the first among equals; `(0, 0)` for a matrix
    /// without entries.
    pub fn row_max_abs(&self, i: usize) -> (r: Result<(usize, Rational), MatrixError>)
        requires
            self.wf(),
        ensures
            self.is_empty() ==> r == Ok::<(usize, Rational), MatrixError>(
                (0usize, Rational::spec_from_integer(0)),
            ),
            !self.is_empty() && i < self.spec_rows() ==> r is Ok && r->Ok_0.0 == pivot_col(
                self@[i as int],
                0,
                self.spec_cols() as int,
            ) && r->Ok_0.1 == self@[i as int][r->Ok_0.0 as int].spec_abs(),
            !self.is_empty() && i >= self.spec_rows() ==> r == Err::<
                (usize, Rational),
                MatrixError,
            >(MatrixError::IndexOutOfRange),
            !self.is_empty() && i < self.spec_rows() ==> r->Ok_0.0 < self.spec_cols()
                && r->Ok_0.1.value() == abs_real(self@[i as int][r->Ok_0.0 as int].value())
                && (forall|k: int|
                0 <= k < self.spec_cols() ==> abs_real((#[trigger] self@[i as int][k]).value())
                    <= r->Ok_0.1.value()) && (forall|k: int|
                0 <= k < r->Ok_0.0 ==> abs_real((#[trigger] self@[i as int][k]).value())
                    < r->Ok_0.1.value()),
    {
        if self.rows == 0 || self.cols == 0 {
            return Ok((0, Rational::zero()));
        }
        if i >= self.rows {
            return Err(MatrixError::IndexOutOfRange);
        }
        assert(self@[i as int] == self.data@[i as int]@);
        let c = find_pivot_col(&self.data[i], 0, self.cols);
        proof {
            lemma_pivot_col(self@[i as int], 0, self.cols as int);
        }
        Ok((c, self.data[i][c].abs()))
    }

    /// The row and the absolute value of the entry of largest absolute value
    /// in column `j`, the first among equals; `(0, 0)` for a matrix without
    /// entries.
    pub fn col_max_abs(&self, j: usize) -> (r: Result<(usize, Rational), MatrixError>)
        requires
            self.wf(),
        ensures
            self.is_empty() ==> r == Ok::<(usize, Rational), MatrixError>(
                (0usize, Rational::spec_from_integer(0)),
            ),
            !self.is_empty() && j < self.spec_cols() ==> r is Ok && r->Ok_0.0 == pivot_row(
                self@,
                j as int,
                0,
                self.spec_rows() as int,
            ) && r->Ok_0.1 == self@[r->Ok_0.0 as int][j as int].spec_abs(),
            !self.is_empty() && j >= self.spec_cols() ==> r == Err::<
                (usize, Rational),
                MatrixError,
            >(MatrixError::IndexOutOfRange),
            !self.is_empty() && j < self.spec_cols() ==> r->Ok_0.0 < self.spec_rows()
                && r->Ok_0.1.value() == abs_real(self@[r->Ok_0.0 as int][j as int].value())
                && (forall|k: int|
                0 <= k < self.spec_rows() ==> abs_real((#[trigger] self@[k])[j as int].value())
                    <= r->Ok_0.1.value()) && (forall|k: int|
                0 <= k < r->Ok_0.0 ==> abs_real((#[trigger] self@[k])[j as int].value())
                    < r->Ok_0.1.value()),
    {
        if self.rows == 0 || self.cols == 0 {
            return Ok((0, Rational::zero()));
        }
        if j >= self.cols {
            return Err(MatrixError::IndexOutOfRange);
        }
        assert forall|i: int| 0 <= i < self.data@.len() implies j < (#[trigger] self.data@[i])@.len() by {
            assert(self@[i] == self.data@[i]@);
        }
        let p = find_pivot_row(&self.data, j, 0, self.rows);
        assert(self@[p as int] == self.data@[p as int]@);
        proof {
            lemma_pivot_row(self@, j as int, 0, self.rows as int);
        }
        Ok((p, self.data[p][j].abs()))
    }

    /// Reduces the matrix to reduced row-echelon form by Gauss–Jordan
    /// elimination with the largest entry of each column as its pivot, and
    /// returns the rank. Where an intermediate value does not fit the number
    /// type the matrix is left as it was.
    ///
    /// On success the matrix is in reduced row-echelon form with `rank`
    /// pivots, and, read as an augmented linear system with any number of
    /// unknowns, has the solutions it had before.
    pub fn to_row_echelon_form(&mut self) -> (r: Result<usize, MatrixError>)
        requires
            old(self).wf(),
        ensures
            final(self).wf(),
            final(self).spec_rows() == old(self).spec_rows(),
            final(self).spec_cols() == old(self).spec_cols(),
            match reduce(old(self)@, old(self).spec_cols()) {
                Some((g, rank)) => r == Ok::<usize, MatrixError>(rank as usize) && final(self)@ == g
                    && rank <= old(self).spec_rows(),
                None => r == Err::<usize, MatrixError>(MatrixError::Overflow) && final(self)@
                    == old(self)@,
            },
            r matches Ok(rank) ==> rank <= old(self).spec_cols() && is_rref(
                final(self)@,
                old(self).spec_cols(),
                rank as nat,
            ),
            r is Ok ==> forall|x: Seq<real>, n: nat|
                n < old(self).spec_cols() ==> #[trigger] solves(final(self)@, x, n) == solves(
                    old(self)@,
                    x,
                    n,
                ),
    {
        proof {
            if reduce(self@, self.spec_cols()) is Some {
                lemma_reduce_is_rref(self@, self.spec_cols());
                assert forall|x: Seq<real>, n: nat| n < self.spec_cols() implies #[trigger] solves(
                    reduce(self@, self.spec_cols()).unwrap().0,
                    x,
                    n,
                ) == solves(self@, x, n) by {
                    lemma_reduce_solutions(self@, self.spec_cols(), x, n);
                }
            }
        }
        self.reduce_in_place()
    }

    /// The reduction behind [`Matrix::to_row_echelon_form`], with the
    /// contract that says exactly what it computes.
    pub(crate) fn reduce_in_place(&mut self) -> (r: Result<usize, MatrixError>)
        requires
            old(self).wf(),
        ensures
            final(self).wf(),
            final(self).spec_rows() == old(self).spec_rows(),
            final(self).spec_cols() == old(self).spec_cols(),
            match reduce(old(self)@, old(self).spec_cols()) {
                Some((g, rank)) => r == Ok::<usize, MatrixError>(rank as usize) && final(self)@ == g
                    && rank <= old(self).spec_rows(),
                None => r == Err::<usize, MatrixError>(MatrixError::Overflow) && final(self)@
                    == old(self)@,
            },
    {
        let mut work = copy_grid(&self.data);
        assert(rows_view(work@) == self@);
        match forward_exec(&mut work, self.cols) {
            Some(rank) => {
                if backward_exec(&mut work, self.cols, rank) {
                    self.data = work;
                    Ok(rank)
                } else {
                    Err(MatrixError::Overflow)
                }
            },
            None => Err(MatrixError::Overflow),
        }
    }

    /// The text form: the rows in brackets, one per line, within an outer
    /// pair of brackets; `[]` for a matrix without rows.
    pub fn to_text(&self) -> (r: String)
        requires
            self.wf(),
        ensures
            r@ == grid_text(self@),
    {
        let mut out = String::new();
        push_char(&mut out, '[');
        let mut i: usize = 0;
        while i < self.rows
            invariant
                self.wf(),
                i <= self.rows,
                out@ == seq!['['] + rows_text(self@, i as nat),
            decreases self.rows - i,
        {
            let ghost start = out@;
            if i > 0 {
                push_char(&mut out, ',');
                push_char(&mut out, '\n');
                push_char(&mut out, ' ');
            }
            push_char(&mut out, '[');
            assert(out@ =~= start + (if i > 0 {
                seq![',', '\n', ' ', '[']
            } else {
                seq!['[']
            }));
            let ghost open = out@;
            assert(self@[i as int] == self.data@[i as int]@);
            let mut j: usize = 0;
            while j < self.cols
                invariant
                    self.wf(),
                    i < self.rows,
                    j <= self.cols,
                    out@ == open + row_text(self@[i as int], j as nat),
                decreases self.cols - j,
            {
                let ghost before = out@;
                if j > 0 {
                    push_char(&mut out, ',');
                }
                assert(self@[i as int] == self.data@[i as int]@);
                let entry = self.data[i][j].to_text();
                out.append(entry.as_str());
                assert(out@ =~= open + row_text(self@[i as int], (j + 1) as nat));
                j += 1;
            }
            push_char(&mut out, ']');
            assert(out@ =~= seq!['['] + rows_text(self@, (i + 1) as nat));
            i += 1;
        }
        push_char(&mut out, ']');
        out
    }
}

} // verus!
