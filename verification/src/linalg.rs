//! A rectangular matrix of field elements and the operations of the linear
//! solver built on it: reduction to reduced row-echelon form, structural
//! pivot predicates, the solvability test for an augmented system, and
//! extraction of its solution vector.

use vstd::prelude::*;
use crate::decimal::{dec_seq, dec_string, dec_width};
use crate::finite_field::{has_inverse, invertible_modulus, GFElement};
use crate::rref::{
    any_contra_row, eliminate_row, every_row_pivot, first_nonzero_below, grid_wf, is_contra_row,
    lemma_first_nonzero_below_is, lemma_pivot_step_wf, lemma_process_row_wf,
    lemma_row_lead_is, lemma_row_lead_range, lemma_scale_row_wf, lemma_swap_rows_wf, n_cols, pivot_step,
    process_row_from, reduce_from, row_lead, rref, scale_row_from, solvable, swap_rows,
    transpose, unaugmented, Grid,
};

verus! {

/// A rectangular grid of field elements. When used for solving, the last
/// column of each row is read as the augmentation (right-hand side) of the
/// system and the remaining columns as coefficients.
pub struct Matrix {
    rows: Vec<Vec<GFElement>>,
}

/// The rows of a vector of row vectors, as a grid of sequences.
pub open spec fn rows_view(rows: Seq<Vec<GFElement>>) -> Grid {
    Seq::new(rows.len(), |i: int| rows[i]@)
}

/// Each row of a grid seen through `rows_view` is the view of that row.
proof fn lemma_rows_view_index(rows: Seq<Vec<GFElement>>)
    ensures
        forall|i: int| 0 <= i < rows.len() ==> (#[trigger] rows[i])@ == rows_view(rows)[i],
{
}

/// The widest rendered value in `row[j..]`, folded over an accumulator.
pub open spec fn width_row_from(row: Seq<GFElement>, j: int, acc: int) -> int
    decreases row.len() - j,
{
    if j < 0 || j >= row.len() {
        acc
    } else {
        let w = dec_seq(row[j].value as int).len() as int;
        width_row_from(
            row,
            j + 1,
            if w > acc {
                w
            } else {
                acc
            },
        )
    }
}

/// The widest rendered value in rows `i..`, folded over an accumulator.
pub open spec fn width_from(rows: Grid, i: int, acc: int) -> int
    decreases rows.len() - i,
{
    if i < 0 || i >= rows.len() {
        acc
    } else {
        width_from(rows, i + 1, width_row_from(rows[i], 0, acc))
    }
}

/// The width of the widest rendered value in the grid.
pub open spec fn grid_width(rows: Grid) -> int {
    width_from(rows, 0, 0)
}

/// `k` spaces; none for `k <= 0`.
pub open spec fn spaces(k: int) -> Seq<char> {
    Seq::new(
        (if k > 0 {
            k
        } else {
            0
        }) as nat,
        |x: int| ' ',
    )
}

/// One value, right-aligned to width `w`.
pub open spec fn cell_text(e: GFElement, w: int) -> Seq<char> {
    spaces(w - dec_seq(e.value as int).len()) + dec_seq(e.value as int)
}

/// `acc` extended with the cells of `row[j..]`, right-aligned to width `w`
/// and space-separated.
pub open spec fn row_text_from(row: Seq<GFElement>, j: int, w: int, acc: Seq<char>) -> Seq<char>
    decreases row.len() - j,
{
    if j < 0 || j >= row.len() {
        acc
    } else {
        row_text_from(
            row,
            j + 1,
            w,
            acc + (if j > 0 {
                seq![' ']
            } else {
                Seq::empty()
            }) + cell_text(row[j], w),
        )
    }
}

/// `acc` extended with the rendered rows `i..`, newline-separated.
pub open spec fn grid_text_from(rows: Grid, i: int, w: int, acc: Seq<char>) -> Seq<char>
    decreases rows.len() - i,
{
    if i < 0 || i >= rows.len() {
        acc
    } else {
        grid_text_from(
            rows,
            i + 1,
            w,
            row_text_from(
                rows[i],
                0,
                w,
                acc + (if i > 0 {
                    seq!['\n']
                } else {
                    Seq::empty()
                }),
            ),
        )
    }
}

/// The rendered grid: rows joined by newlines, every value right-aligned to
/// the width of the widest value in the whole grid, space-separated.
pub open spec fn grid_text(rows: Grid) -> Seq<char> {
    grid_text_from(rows, 0, grid_width(rows), Seq::empty())
}

impl View for Matrix {
    type V = Grid;

    closed spec fn view(&self) -> Grid {
        rows_view(self.rows@)
    }
}

impl Matrix {
    /// The shared modulus of the matrix's elements.
    pub open spec fn modulus(&self) -> int {
        self@[0][0].modulus as int
    }

    /// A well-formed matrix: at least one row and one column, rectangular,
    /// every element canonical under the shared modulus.
    pub open spec fn wf(&self) -> bool {
        grid_wf(self@, self.modulus())
    }

    /// Build a matrix directly from its rows. Nothing is validated here:
    /// the other operations require a well-formed matrix.
    pub fn new(rows: Vec<Vec<GFElement>>) -> (r: Matrix)
        ensures
            r@.len() == rows@.len(),
            forall|i: int| 0 <= i < rows@.len() ==> r@[i] == (#[trigger] rows@[i])@,
    {
        Matrix { rows }
    }

    /// The reduced row-echelon form of this matrix, as a new matrix; the
    /// receiver is left unchanged. Pivot rows are scaled to a leading one
    /// and the pivot column is zeroed in every other row; rows without a
    /// usable pivot column are left as they stand.
    pub fn to_rref(&self) -> (r: Matrix)
        requires
            self.wf(),
            invertible_modulus(self.modulus()),
        ensures
            r@ == rref(self@),
            grid_wf(r@, self.modulus()),
            r@.len() == self@.len(),
            n_cols(r@) == n_cols(self@),
            r.wf(),
            r.modulus() == self.modulus(),
    {
        let ghost m = self.modulus();
        let ghost orig = self@;
        let n_rows = self.rows.len();
        let nc = self.rows[0].len();
        let mut work = copy_rows(&self.rows);
        proof {
            lemma_rows_view_index(work@);
            lemma_rows_view_index(self.rows@);
        }
        let mut r: usize = 0;
        while r < n_rows
            invariant
                r <= n_rows,
                n_rows == orig.len(),
                rows_view(work@).len() == n_rows,
                work@.len() == n_rows,
                grid_wf(rows_view(work@), m),
                grid_wf(orig, m),
                n_cols(rows_view(work@)) == nc,
                forall|i: int| 0 <= i < n_rows ==> ((#[trigger] work@[i])@).len() == nc,
                nc == n_cols(orig),
                invertible_modulus(m),
                reduce_from(rows_view(work@), r as int) == rref(orig),
            decreases n_rows - r,
        {
            let ghost row_start = rows_view(work@);
            let mut c: usize = 0;
            let mut pivoted = false;
            while c < nc && !pivoted
                invariant
                    c <= nc,
                    r < n_rows,
                    n_rows == rows_view(work@).len(),
                    work@.len() == n_rows,
                    grid_wf(rows_view(work@), m),
                    n_cols(rows_view(work@)) == nc,
                    forall|i: int| 0 <= i < n_rows ==> ((#[trigger] work@[i])@).len() == nc,
                    invertible_modulus(m),
                    !pivoted ==> rows_view(work@) == row_start,
                    !pivoted ==> process_row_from(row_start, r as int, c as int)
                        == process_row_from(row_start, r as int, 0),
                    pivoted ==> rows_view(work@) == process_row_from(row_start, r as int, 0),
                decreases (if pivoted { 0int } else { 1int }), nc - c,
            {
                let ghost pre = rows_view(work@);
                if work[r][c].value == 0 {
                    // Look below row r for a row with a non-zero entry in
                    // this column, and swap the first one found into place.
                    let mut s: usize = r + 1;
                    while s < n_rows && work[s][c].value == 0
                        invariant
                            r + 1 <= s <= n_rows,
                            r < n_rows,
                            c < nc,
                            n_rows == rows_view(work@).len(),
                            work@.len() == n_rows,
                            forall|i: int| 0 <= i < n_rows ==> ((#[trigger] work@[i])@).len() == nc,
                            rows_view(work@) == pre,
                            forall|t: int|
                                r + 1 <= t < s ==> (#[trigger] rows_view(work@)[t][c as int]).value
                                    == 0,
                        decreases n_rows - s,
                    {
                        s += 1;
                    }
                    proof {
                        lemma_first_nonzero_below_is(pre, r + 1, s as int, c as int);
                    }
                    if s < n_rows {
                        swap_rows_exec(&mut work, r, s);
                        proof {
                            lemma_swap_rows_wf(pre, m, r as int, s as int);
                            lemma_rows_view_index(work@);
                        }
                    }
                }
                if work[r][c].value != 0 {
                    // Pivot here: scale row r so this entry becomes one,
                    // then zero this column in every other row.
                    let ghost sw = rows_view(work@);
                    let p = work[r][c];
                    let mut row_r = copy_row(&work[r]);
                    scale_row_exec(&mut row_r, c, p);
                    work[r] = row_r;
                    let ghost base = sw.update(r as int, scale_row_from(sw[r as int], c as int, p));
                    proof {
                        lemma_scale_row_wf(sw[r as int], m, c as int, p);
                        lemma_rows_view_index(work@);
                        assert(rows_view(work@) =~= base);
                    }
                    let pivot_row = copy_row(&work[r]);
                    let ghost target = pivot_step(sw, r as int, c as int);
                    let mut o: usize = 0;
                    while o < n_rows
                        invariant
                            o <= n_rows,
                            r < n_rows,
                            c < nc,
                            n_rows == rows_view(work@).len(),
                            work@.len() == n_rows,
                            n_rows == sw.len(),
                            n_rows == target.len(),
                            n_rows == base.len(),
                            grid_wf(sw, m),
                            n_cols(sw) == nc,
                            forall|i: int| 0 <= i < n_rows ==> ((#[trigger] work@[i])@).len() == nc,
                            invertible_modulus(m),
                            target == pivot_step(sw, r as int, c as int),
                            base == sw.update(r as int, scale_row_from(sw[r as int], c as int, p)),
                            p == sw[r as int][c as int],
                            p.wf(),
                            p.modulus == m,
                            p.value != 0,
                            pivot_row@ == base[r as int],
                            forall|i: int|
                                0 <= i < o && i != r ==> (#[trigger] rows_view(work@)[i])
                                    == target[i],
                            forall|i: int|
                                o <= i < n_rows && i != r ==> (#[trigger] rows_view(work@)[i])
                                    == sw[i],
                            rows_view(work@)[r as int] == base[r as int],
                        decreases n_rows - o,
                    {
                        proof {
                            lemma_rows_view_index(work@);
                            lemma_scale_row_wf(sw[r as int], m, c as int, p);
                        }
                        if o != r {
                            proof {
                                assert(rows_view(work@)[o as int] == sw[o as int]);
                            }
                            if work[o][c].value != 0 {
                                let mut row_o = copy_row(&work[o]);
                                eliminate_row_exec(&mut row_o, &pivot_row, c);
                                work[o] = row_o;
                                proof {
                                    lemma_rows_view_index(work@);
                                    assert(rows_view(work@)[o as int] == eliminate_row(
                                        sw[o as int],
                                        base[r as int],
                                        c as int,
                                    ));
                                    assert(rows_view(work@)[o as int] == target[o as int]);
                                }
                            } else {
                                proof {
                                    assert(rows_view(work@)[o as int] == target[o as int]);
                                }
                            }
                        }
                        o += 1;
                    }
                    pivoted = true;
                    proof {
                        assert forall|i: int| 0 <= i < n_rows implies #[trigger] rows_view(
                            work@,
                        )[i] == target[i] by {
                            if i == r {
                                assert(target[i] == scale_row_from(sw[r as int], c as int, p));
                            }
                        }
                        assert(rows_view(work@) =~= target);
                        lemma_pivot_step_wf(sw, m, r as int, c as int);
                        lemma_rows_view_index(work@);
                        if pre[r as int][c as int].value != 0 {
                            assert(sw == pre);
                            assert(process_row_from(pre, r as int, c as int) == target);
                        } else {
                            let fs = first_nonzero_below(pre, r + 1, c as int);
                            assert(fs < n_rows);
                            assert(sw == swap_rows(pre, r as int, fs));
                            assert(process_row_from(pre, r as int, c as int) == target);
                        }
                    }
                } else {
                    proof {
                        // No pivot in this column: the rows are unchanged
                        // and the scan moves one column to the right.
                        assert(rows_view(work@) == pre);
                        assert(process_row_from(pre, r as int, c as int) == process_row_from(
                            pre,
                            r as int,
                            (c + 1) as int,
                        ));
                    }
                    c += 1;
                }
            }
            proof {
                if !pivoted {
                    assert(process_row_from(row_start, r as int, c as int) == row_start);
                }
                assert(rows_view(work@) == process_row_from(row_start, r as int, 0));
                lemma_process_row_wf(row_start, m, r as int, 0);
                assert(reduce_from(row_start, r as int) == reduce_from(
                    rows_view(work@),
                    r as int + 1,
                ));
            }
            r += 1;
        }
        proof {
            assert(reduce_from(rows_view(work@), n_rows as int) == rows_view(work@));
        }
        Matrix { rows: work }
    }

    /// True when every row either is entirely zero or has an exact one as
    /// its first non-zero entry. An all-zero row counts as having a pivot.
    pub fn every_row_has_a_pivot(&self) -> (b: bool)
        ensures
            b == every_row_pivot(self@),
    {
        let n = self.rows.len();
        let mut i: usize = 0;
        while i < n
            invariant
                i <= n,
                n == self@.len(),
                forall|k: int|
                    0 <= k < i ==> row_lead(#[trigger] self@[k]) == self@[k].len()
                        || self@[k][row_lead(self@[k])].value == 1,
            decreases n - i,
        {
            proof {
                lemma_rows_view_index(self.rows@);
            }
            let l = row_lead_exec(&self.rows[i]);
            proof {
                lemma_row_lead_range(self@[i as int], 0);
            }
            if l < self.rows[i].len() {
                if self.rows[i][l].value != 1 {
                    proof {
                        assert(!every_row_pivot(self@)) by {
                            assert(row_lead(self@[i as int]) == l);
                        }
                    }
                    return false;
                }
            }
            i += 1;
        }
        true
    }

    /// The transposed matrix: its rows are this matrix's columns.
    pub fn transpose(&self) -> (r: Matrix)
        requires
            self.wf(),
        ensures
            r@ == transpose(self@),
    {
        let ghost view = self@;
        let n = self.rows.len();
        let nc = self.rows[0].len();
        let mut out: Vec<Vec<GFElement>> = Vec::new();
        let mut i: usize = 0;
        while i < nc
            invariant
                i <= nc,
                out@.len() == i,
                self.wf(),
                view == self@,
                n == view.len(),
                nc == n_cols(view),
                forall|k: int| 0 <= k < i ==> (#[trigger] out@[k])@ == transpose(view)[k],
            decreases nc - i,
        {
            let mut row: Vec<GFElement> = Vec::new();
            let mut j: usize = 0;
            while j < n
                invariant
                    j <= n,
                    row@.len() == j,
                    i < nc,
                    self.wf(),
                    view == self@,
                    n == view.len(),
                    nc == n_cols(view),
                    forall|k: int| 0 <= k < j ==> row@[k] == view[k][i as int],
                decreases n - j,
            {
                proof {
                    lemma_rows_view_index(self.rows@);
                }
                row.push(self.rows[j][i]);
                j += 1;
            }
            proof {
                assert(row@ =~= transpose(view)[i as int]);
            }
            out.push(row);
            i += 1;
        }
        proof {
            assert(rows_view(out@) =~= transpose(view));
        }
        Matrix { rows: out }
    }

    /// True when every column of the transposed matrix, read as a row,
    /// either is entirely zero or leads with an exact one.
    pub fn every_column_has_a_pivot(&self) -> (b: bool)
        requires
            self.wf(),
        ensures
            b == every_row_pivot(transpose(self@)),
    {
        self.transpose().every_row_has_a_pivot()
    }

    /// This matrix without its last column: the coefficient part of an
    /// augmented system.
    pub fn unaugmented_matrix(&self) -> (r: Matrix)
        requires
            self.wf(),
        ensures
            r@ == unaugmented(self@),
    {
        let ghost view = self@;
        let n = self.rows.len();
        let nc = self.rows[0].len();
        let mut out: Vec<Vec<GFElement>> = Vec::new();
        let mut i: usize = 0;
        while i < n
            invariant
                i <= n,
                out@.len() == i,
                self.wf(),
                view == self@,
                n == view.len(),
                nc == n_cols(view),
                forall|k: int| 0 <= k < i ==> (#[trigger] out@[k])@ == unaugmented(view)[k],
            decreases n - i,
        {
            let mut row: Vec<GFElement> = Vec::new();
            let mut j: usize = 0;
            while j < nc - 1
                invariant
                    j <= nc - 1,
                    row@.len() == j,
                    i < n,
                    self.wf(),
                    view == self@,
                    n == view.len(),
                    nc == n_cols(view),
                    forall|k: int| 0 <= k < j ==> row@[k] == view[i as int][k],
                decreases nc - 1 - j,
            {
                proof {
                    lemma_rows_view_index(self.rows@);
                }
                row.push(self.rows[i][j]);
                j += 1;
            }
            proof {
                assert(row@ =~= unaugmented(view)[i as int]);
            }
            out.push(row);
            i += 1;
        }
        proof {
            assert(rows_view(out@) =~= unaugmented(view));
        }
        Matrix { rows: out }
    }

    /// True when some row states the contradiction `0 = k` for `k != 0`:
    /// all coefficient entries zero while the augmentation entry is not.
    pub fn is_any_row_unsolvable(&self) -> (b: bool)
        requires
            self.wf(),
        ensures
            b == any_contra_row(self@),
    {
        let n = self.rows.len();
        let nc = self.rows[0].len();
        let mut i: usize = 0;
        while i < n
            invariant
                i <= n,
                self.wf(),
                n == self@.len(),
                nc == n_cols(self@),
                forall|k: int| 0 <= k < i ==> !is_contra_row(#[trigger] self@[k]),
            decreases n - i,
        {
            proof {
                lemma_rows_view_index(self.rows@);
            }
            let l = row_lead_exec(&self.rows[i]);
            proof {
                lemma_row_lead_range(self@[i as int], 0);
            }
            if l == nc - 1 {
                proof {
                    assert(is_contra_row(self@[i as int]));
                }
                return true;
            }
            proof {
                if l < nc - 1 {
                    assert(!is_contra_row(self@[i as int]));
                } else {
                    assert(self@[i as int][nc - 1].value == 0);
                    assert(!is_contra_row(self@[i as int]));
                }
            }
            i += 1;
        }
        false
    }

    /// Whether the augmented system is solvable. The matrix is reduced to
    /// its row-echelon form; the system is solvable when no reduced row is
    /// a contradiction and every row of the reduced coefficient part
    /// carries a pivot.
    pub fn is_solvable(&self) -> (b: bool)
        requires
            self.wf(),
            invertible_modulus(self.modulus()),
        ensures
            b == solvable(self@),
    {
        let reduced = self.to_rref();
        if reduced.is_any_row_unsolvable() {
            return false;
        }
        reduced.unaugmented_matrix().every_row_has_a_pivot()
    }

    /// The solution of the augmented system, when it has one: the
    /// augmentation column of the reduced form, one value per row, in row
    /// order. `None` exactly when the system is not solvable.
    pub fn solution(&self) -> (r: Option<Vec<GFElement>>)
        requires
            self.wf(),
            invertible_modulus(self.modulus()),
        ensures
            match r {
                None => !solvable(self@),
                Some(v) => {
                    &&& solvable(self@)
                    &&& v@.len() == self@.len()
                    &&& forall|i: int|
                        0 <= i < self@.len() ==> v@[i] == rref(self@)[i][n_cols(self@) - 1]
                },
            },
    {
        if !self.is_solvable() {
            return None;
        }
        let reduced = self.to_rref();
        let n = reduced.rows.len();
        let nc = reduced.rows[0].len();
        let mut out: Vec<GFElement> = Vec::new();
        let mut i: usize = 0;
        while i < n
            invariant
                i <= n,
                out@.len() == i,
                reduced.wf(),
                n == reduced@.len(),
                nc == n_cols(reduced@),
                forall|k: int| 0 <= k < i ==> out@[k] == reduced@[k][nc - 1],
            decreases n - i,
        {
            proof {
                lemma_rows_view_index(reduced.rows@);
            }
            out.push(reduced.rows[i][nc - 1]);
            i += 1;
        }
        Some(out)
    }


    /// The matrix as text: rows joined by newlines, every value
    /// right-aligned to the width of the widest value in the whole matrix
    /// and separated by single spaces.
    pub fn render(&self) -> (r: String)
        requires
            self.wf(),
        ensures
            r@ == grid_text(self@),
    {
        let ghost view = self@;
        let n = self.rows.len();
        let nc = self.rows[0].len();
        let mut w: usize = 0;
        let mut i: usize = 0;
        while i < n
            invariant
                i <= n,
                self.wf(),
                view == self@,
                n == view.len(),
                nc == n_cols(view),
                width_from(view, i as int, w as int) == grid_width(view),
            decreases n - i,
        {
            let mut j: usize = 0;
            while j < nc
                invariant
                    j <= nc,
                    i < n,
                    self.wf(),
                    view == self@,
                    n == view.len(),
                    nc == n_cols(view),
                    width_from(view, i as int + 1, width_row_from(view[i as int], j as int, w as int))
                        == grid_width(view),
                decreases nc - j,
            {
                proof {
                    lemma_rows_view_index(self.rows@);
                }
                let dw = dec_width(self.rows[i][j].value);
                if dw > w {
                    w = dw;
                }
                j += 1;
            }
            i += 1;
        }
        let mut out = String::new();
        let mut i: usize = 0;
        while i < n
            invariant
                i <= n,
                self.wf(),
                view == self@,
                n == view.len(),
                nc == n_cols(view),
                w as int == grid_width(view),
                grid_text_from(view, i as int, w as int, out@) == grid_text(view),
            decreases n - i,
        {
            let ghost before_sep = out@;
            if i > 0 {
                out.append("\n");
                proof {
                    reveal_strlit("\n");
                }
            }
            proof {
                assert(out@ =~= before_sep + (if i > 0 {
                    seq!['\n']
                } else {
                    Seq::<char>::empty()
                }));
            }
            let mut j: usize = 0;
            while j < nc
                invariant
                    j <= nc,
                    i < n,
                    self.wf(),
                    view == self@,
                    n == view.len(),
                    nc == n_cols(view),
                    w as int == grid_width(view),
                    grid_text_from(view, i as int + 1, w as int, row_text_from(view[i as int], j as int, w as int, out@))
                        == grid_text(view),
                decreases nc - j,
            {
                let ghost before_cell = out@;
                if j > 0 {
                    out.append(" ");
                    proof {
                        reveal_strlit(" ");
                    }
                }
                proof {
                    lemma_rows_view_index(self.rows@);
                }
                let v = self.rows[i][j].value;
                let dw = dec_width(v);
                let ghost before_pad = out@;
                let mut k: usize = dw;
                while k < w
                    invariant
                        dw <= k,
                        dw < w ==> k <= w,
                        dw >= w ==> k == dw,
                        out@ == before_pad + spaces(k as int - dw as int),
                        dw == dec_seq(v as int).len(),
                    decreases w - k,
                {
                    out.append(" ");
                    proof {
                        reveal_strlit(" ");
                        assert(out@ =~= before_pad + spaces(k as int + 1 - dw as int));
                    }
                    k += 1;
                }
                let ds = dec_string(v);
                out.append(ds.as_str());
                proof {
                    assert(out@ =~= before_pad + spaces(w as int - dw as int) + dec_seq(v as int));
                    assert(v == view[i as int][j as int].value);
                    assert(out@ =~= before_cell + (if j > 0 {
                        seq![' ']
                    } else {
                        Seq::<char>::empty()
                    }) + cell_text(view[i as int][j as int], w as int));
                }
                j += 1;
            }
            i += 1;
        }
        out
    }

}

/// The index of a row's first non-zero entry, or its length if the row is
/// entirely zero.
fn row_lead_exec(row: &Vec<GFElement>) -> (l: usize)
    ensures
        l == row_lead(row@),
{
    let mut j: usize = 0;
    while j < row.len()
        invariant
            j <= row@.len(),
            forall|k: int| 0 <= k < j ==> (#[trigger] row@[k]).value == 0,
        decreases row@.len() - j,
    {
        if row[j].value != 0 {
            proof {
                lemma_row_lead_is(row@, 0, j as int);
            }
            return j;
        }
        j += 1;
    }
    proof {
        lemma_row_lead_is(row@, 0, row@.len() as int);
    }
    row.len()
}

/// An element-by-element copy of one row.
fn copy_row(row: &Vec<GFElement>) -> (r: Vec<GFElement>)
    ensures
        r@ == row@,
{
    let mut out: Vec<GFElement> = Vec::new();
    let mut j: usize = 0;
    while j < row.len()
        invariant
            j <= row.len(),
            out@.len() == j,
            forall|k: int| 0 <= k < j ==> out@[k] == row@[k],
        decreases row.len() - j,
    {
        out.push(row[j]);
        j += 1;
    }
    proof {
        assert(out@ =~= row@);
    }
    out
}

/// A row-by-row copy of a whole grid.
fn copy_rows(rows: &Vec<Vec<GFElement>>) -> (r: Vec<Vec<GFElement>>)
    ensures
        rows_view(r@) == rows_view(rows@),
{
    let mut out: Vec<Vec<GFElement>> = Vec::new();
    let mut i: usize = 0;
    while i < rows.len()
        invariant
            i <= rows.len(),
            out@.len() == i,
            forall|k: int| 0 <= k < i ==> (#[trigger] out@[k])@ == rows@[k]@,
        decreases rows.len() - i,
    {
        out.push(copy_row(&rows[i]));
        i += 1;
    }
    proof {
        assert(rows_view(out@) =~= rows_view(rows@));
    }
    out
}

/// Exchange rows `a` and `b` of the grid.
fn swap_rows_exec(rows: &mut Vec<Vec<GFElement>>, a: usize, b: usize)
    requires
        a < old(rows)@.len(),
        b < old(rows)@.len(),
    ensures
        rows_view(final(rows)@) == swap_rows(rows_view(old(rows)@), a as int, b as int),
{
    let row_a = copy_row(&rows[a]);
    let row_b = copy_row(&rows[b]);
    rows[a] = row_b;
    rows[b] = row_a;
    proof {
        assert(rows_view(rows@) =~= swap_rows(rows_view(old(rows)@), a as int, b as int));
    }
}

/// Scale `row` from column `c` onward by the inverse of `p`, making the
/// entry in column `c` equal to one when it was `p` itself.
fn scale_row_exec(row: &mut Vec<GFElement>, c: usize, p: GFElement)
    requires
        c < old(row)@.len(),
        p.wf(),
        p.value != 0,
        has_inverse(p.value as int, p.modulus as int),
        forall|j: int|
            c <= j < old(row)@.len() ==> (#[trigger] old(row)@[j]).wf() && old(
                row,
            )@[j].modulus == p.modulus,
    ensures
        final(row)@ == scale_row_from(old(row)@, c as int, p),
{
    let mut j: usize = c;
    while j < row.len()
        invariant
            c <= j <= row.len(),
            row@.len() == old(row)@.len(),
            p.wf(),
            p.value != 0,
            has_inverse(p.value as int, p.modulus as int),
            forall|k: int|
                j <= k < old(row)@.len() ==> (#[trigger] row@[k]) == old(row)@[k],
            forall|k: int|
                c <= k < old(row)@.len() ==> (#[trigger] old(row)@[k]).wf() && old(
                    row,
                )@[k].modulus == p.modulus,
            forall|k: int|
                0 <= k < j ==> (#[trigger] row@[k]) == scale_row_from(old(row)@, c as int, p)[k],
        decreases row.len() - j,
    {
        let e = row[j];
        let q = match e.div(p) {
            Ok(x) => x,
            Err(_) => {
                proof {
                    assert(false);
                }
                vstd::pervasive::unreached()
            },
        };
        row[j] = q;
        j += 1;
    }
    proof {
        assert(final(row)@ =~= scale_row_from(old(row)@, c as int, p));
    }
}

/// Subtract `row[c] * pivot_row` element-wise from `row`, from column `c`
/// onward, zeroing `row`'s entry in column `c` when the pivot entry is one.
fn eliminate_row_exec(row: &mut Vec<GFElement>, pivot_row: &Vec<GFElement>, c: usize)
    requires
        c < old(row)@.len(),
        pivot_row@.len() == old(row)@.len(),
        forall|j: int| c <= j < old(row)@.len() ==> (#[trigger] old(row)@[j]).wf(),
        forall|j: int| c <= j < old(row)@.len() ==> (#[trigger] pivot_row@[j]).wf(),
        forall|j: int|
            c <= j < old(row)@.len() ==> (#[trigger] old(row)@[j]).modulus == old(
                row,
            )@[c as int].modulus,
        forall|j: int|
            c <= j < old(row)@.len() ==> (#[trigger] pivot_row@[j]).modulus == old(
                row,
            )@[c as int].modulus,
    ensures
        final(row)@ == eliminate_row(old(row)@, pivot_row@, c as int),
{
    let s = row[c];
    let mut j: usize = c;
    while j < row.len()
        invariant
            c <= j <= row.len(),
            row@.len() == old(row)@.len(),
            pivot_row@.len() == old(row)@.len(),
            s == old(row)@[c as int],
            s.wf(),
            forall|k: int|
                j <= k < old(row)@.len() ==> (#[trigger] row@[k]) == old(row)@[k],
            forall|k: int| c <= k < old(row)@.len() ==> (#[trigger] old(row)@[k]).wf(),
            forall|k: int| c <= k < old(row)@.len() ==> (#[trigger] pivot_row@[k]).wf(),
            forall|k: int|
                c <= k < old(row)@.len() ==> (#[trigger] old(row)@[k]).modulus == s.modulus,
            forall|k: int|
                c <= k < old(row)@.len() ==> (#[trigger] pivot_row@[k]).modulus == s.modulus,
            forall|k: int|
                0 <= k < j ==> (#[trigger] row@[k]) == eliminate_row(
                    old(row)@,
                    pivot_row@,
                    c as int,
                )[k],
        decreases row.len() - j,
    {
        let t = row[j].sub(s.mul(pivot_row[j]));
        row[j] = t;
        j += 1;
    }
    proof {
        assert(final(row)@ =~= eliminate_row(old(row)@, pivot_row@, c as int));
    }
}

} // verus!
