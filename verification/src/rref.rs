//! The mathematical model of row reduction: the grid of field elements, the
//! single steps of Gaussian elimination (swap, scale, eliminate), the
//! row-by-row reduction itself, and the structural facts proved about its
//! result (leading ones, ordered pivots, idempotence, preserved
//! contradiction rows).

use vstd::prelude::*;
use crate::finite_field::{gf_div, gf_mul, gf_sub, invertible_modulus, lemma_cancel_self,
    lemma_inverse_works, GFElement};

verus! {

/// The rows of a matrix, as a sequence of rows of elements.
pub type Grid = Seq<Seq<GFElement>>;

/// The number of columns: all rows share the first row's length.
pub open spec fn n_cols(rows: Grid) -> int {
    rows[0].len() as int
}

/// A well-formed grid for modulus `m`: at least one row and one column,
/// rectangular, every element canonical under `m`.
pub open spec fn grid_wf(rows: Grid, m: int) -> bool {
    &&& rows.len() >= 1
    &&& n_cols(rows) >= 1
    &&& forall|i: int| 0 <= i < rows.len() ==> (#[trigger] rows[i]).len() == n_cols(rows)
    &&& forall|i: int, j: int|
        0 <= i < rows.len() && 0 <= j < n_cols(rows) ==> (#[trigger] rows[i][j]).modulus == m
            && rows[i][j].wf()
}

/// Rows `i` and `j` exchanged.
pub open spec fn swap_rows(rows: Grid, i: int, j: int) -> Grid {
    rows.update(i, rows[j]).update(j, rows[i])
}

/// `row` scaled by the inverse of `p` from column `c` onward.
pub open spec fn scale_row_from(row: Seq<GFElement>, c: int, p: GFElement) -> Seq<GFElement> {
    Seq::new(
        row.len(),
        |j: int|
            if j >= c {
                gf_div(row[j], p)
            } else {
                row[j]
            },
    )
}

/// `row` with `s * pivot_row` subtracted element-wise from column `c`
/// onward, where `s` is `row`'s own entry in column `c`.
pub open spec fn eliminate_row(row: Seq<GFElement>, pivot_row: Seq<GFElement>, c: int) -> Seq<
    GFElement,
> {
    let s = row[c];
    Seq::new(
        row.len(),
        |j: int|
            if j >= c {
                gf_sub(row[j], gf_mul(s, pivot_row[j]))
            } else {
                row[j]
            },
    )
}

/// One pivot operation at row `r`, column `c`: scale row `r` so its entry in
/// column `c` becomes one, then zero that column in every other row whose
/// entry there is non-zero.
pub open spec fn pivot_step(rows: Grid, r: int, c: int) -> Grid {
    let scaled = scale_row_from(rows[r], c, rows[r][c]);
    Seq::new(
        rows.len(),
        |o: int|
            if o == r {
                scaled
            } else if rows[o][c].value != 0 {
                eliminate_row(rows[o], scaled, c)
            } else {
                rows[o]
            },
    )
}

/// The first row index in `[lo, rows.len())` with a non-zero entry in column
/// `c`, or `rows.len()` if every such entry is zero.
pub open spec fn first_nonzero_below(rows: Grid, lo: int, c: int) -> int
    decreases rows.len() - lo,
{
    if lo < 0 || lo >= rows.len() {
        rows.len() as int
    } else if rows[lo][c].value != 0 {
        lo
    } else {
        first_nonzero_below(rows, lo + 1, c)
    }
}

/// Process row `r`, scanning columns from `c` left to right. At each column,
/// if row `r`'s entry is zero, the first lower row with a non-zero entry
/// there (if any) is swapped up; a column where row `r` then holds a
/// non-zero entry becomes the pivot column and the pivot operation is
/// performed. If no column qualifies, the rows are left unchanged.
pub open spec fn process_row_from(rows: Grid, r: int, c: int) -> Grid
    decreases n_cols(rows) - c,
{
    if c < 0 || c >= n_cols(rows) {
        rows
    } else if rows[r][c].value != 0 {
        pivot_step(rows, r, c)
    } else {
        let s = first_nonzero_below(rows, r + 1, c);
        if s < rows.len() {
            pivot_step(swap_rows(rows, r, s), r, c)
        } else {
            process_row_from(rows, r, c + 1)
        }
    }
}

/// Process rows `r`, `r + 1`, ... in order.
pub open spec fn reduce_from(rows: Grid, r: int) -> Grid
    decreases rows.len() - r,
    via reduce_from_decreases
{
    if r < 0 || r >= rows.len() {
        rows
    } else {
        reduce_from(process_row_from(rows, r, 0), r + 1)
    }
}

#[via_fn]
proof fn reduce_from_decreases(rows: Grid, r: int) {
    if 0 <= r < rows.len() {
        lemma_process_row_shape(rows, r, 0);
    }
}

/// The reduced row-echelon form of a grid: row-by-row Gaussian elimination,
/// with the column scan restarting at column zero for every row.
pub open spec fn rref(rows: Grid) -> Grid {
    reduce_from(rows, 0)
}

/// Processing one row does not change the number of rows.
pub proof fn lemma_process_row_shape(rows: Grid, r: int, c: int)
    requires
        0 <= r < rows.len(),
    ensures
        process_row_from(rows, r, c).len() == rows.len(),
    decreases n_cols(rows) - c,
{
    if c < 0 || c >= n_cols(rows) {
    } else if rows[r][c].value != 0 {
    } else {
        let s = first_nonzero_below(rows, r + 1, c);
        if s < rows.len() {
            lemma_first_nonzero_below_range(rows, r + 1, c);
        } else {
            lemma_process_row_shape(rows, r, c + 1);
        }
    }
}

/// The index of the first entry of `row[j..]` with a non-zero value, or the
/// row's length if every entry from `j` on is zero.
pub open spec fn row_lead_from(row: Seq<GFElement>, j: int) -> int
    decreases row.len() - j,
{
    if j < 0 || j >= row.len() {
        row.len() as int
    } else if row[j].value != 0 {
        j
    } else {
        row_lead_from(row, j + 1)
    }
}

/// The index of a row's leading (first non-zero) entry, or the row's length
/// for an all-zero row.
pub open spec fn row_lead(row: Seq<GFElement>) -> int {
    row_lead_from(row, 0)
}

/// Every row either is all zero or leads with an exact one.
pub open spec fn every_row_pivot(rows: Grid) -> bool {
    forall|i: int|
        0 <= i < rows.len() ==> row_lead(#[trigger] rows[i]) == rows[i].len()
            || rows[i][row_lead(rows[i])].value == 1
}

/// A contradiction row of an augmented system: all coefficients (every
/// column but the last) zero, augmentation non-zero.
pub open spec fn is_contra_row(row: Seq<GFElement>) -> bool {
    &&& row.len() >= 1
    &&& forall|j: int| 0 <= j < row.len() - 1 ==> (#[trigger] row[j]).value == 0
    &&& row[row.len() - 1].value != 0
}

/// Some row of the grid is a contradiction row.
pub open spec fn any_contra_row(rows: Grid) -> bool {
    exists|i: int| 0 <= i < rows.len() && is_contra_row(#[trigger] rows[i])
}

/// The grid without its last column: the coefficients of an augmented
/// system.
pub open spec fn unaugmented(rows: Grid) -> Grid {
    Seq::new(rows.len(), |i: int| rows[i].subrange(0, n_cols(rows) - 1))
}

/// The transposed grid: entry `(i, j)` of the result is entry `(j, i)` of
/// the argument.
pub open spec fn transpose(rows: Grid) -> Grid {
    Seq::new(n_cols(rows) as nat, |i: int| Seq::new(rows.len(), |j: int| rows[j][i]))
}

/// An augmented system is solvable when its reduced form has no
/// contradiction row and every row of the reduced coefficient part carries
/// a pivot.
pub open spec fn solvable(rows: Grid) -> bool {
    &&& !any_contra_row(rref(rows))
    &&& every_row_pivot(unaugmented(rref(rows)))
}

/// The leading index lies in `[j, row.len()]`; when it is a real position
/// its entry is non-zero, and every entry of `[j, ..)` before it is zero.
pub proof fn lemma_row_lead_range(row: Seq<GFElement>, j: int)
    requires
        0 <= j <= row.len(),
    ensures
        j <= row_lead_from(row, j) <= row.len(),
        row_lead_from(row, j) < row.len() ==> row[row_lead_from(row, j)].value != 0,
        forall|k: int| j <= k < row_lead_from(row, j) ==> (#[trigger] row[k]).value == 0,
    decreases row.len() - j,
{
    if j < row.len() && row[j].value == 0 {
        lemma_row_lead_range(row, j + 1);
    }
}

/// If every entry of `row[j..]` before `l` is zero and entry `l` (when it
/// exists) is non-zero, the leading index from `j` is exactly `l`.
pub proof fn lemma_row_lead_is(row: Seq<GFElement>, j: int, l: int)
    requires
        0 <= j <= l <= row.len(),
        forall|k: int| j <= k < l ==> (#[trigger] row[k]).value == 0,
        l < row.len() ==> row[l].value != 0,
    ensures
        row_lead_from(row, j) == l,
    decreases l - j,
{
    if j < l {
        lemma_row_lead_is(row, j + 1, l);
    }
}

/// Swapping two rows preserves well-formedness and the column count.
pub proof fn lemma_swap_rows_wf(rows: Grid, m: int, i: int, j: int)
    requires
        grid_wf(rows, m),
        0 <= i < rows.len(),
        0 <= j < rows.len(),
    ensures
        grid_wf(swap_rows(rows, i, j), m),
        swap_rows(rows, i, j).len() == rows.len(),
        n_cols(swap_rows(rows, i, j)) == n_cols(rows),
{
}

/// The pivot operation preserves well-formedness and the column count: every
/// produced element is a field operation on canonical elements, hence
/// canonical itself.
pub proof fn lemma_pivot_step_wf(rows: Grid, m: int, r: int, c: int)
    requires
        grid_wf(rows, m),
        0 <= r < rows.len(),
        0 <= c < n_cols(rows),
    ensures
        grid_wf(pivot_step(rows, r, c), m),
        pivot_step(rows, r, c).len() == rows.len(),
        n_cols(pivot_step(rows, r, c)) == n_cols(rows),
{
    let out = pivot_step(rows, r, c);
    assert forall|i: int| 0 <= i < out.len() implies (#[trigger] out[i]).len() == n_cols(rows) by {}
    assert forall|i: int, j: int|
        0 <= i < out.len() && 0 <= j < n_cols(rows) implies (#[trigger] out[i][j]).modulus == m
        && out[i][j].wf() by {}
}

/// Processing one row preserves well-formedness, the row count and the
/// column count.
pub proof fn lemma_process_row_wf(rows: Grid, m: int, r: int, c: int)
    requires
        grid_wf(rows, m),
        0 <= r < rows.len(),
    ensures
        grid_wf(process_row_from(rows, r, c), m),
        process_row_from(rows, r, c).len() == rows.len(),
        n_cols(process_row_from(rows, r, c)) == n_cols(rows),
    decreases n_cols(rows) - c,
{
    if c < 0 || c >= n_cols(rows) {
    } else if rows[r][c].value != 0 {
        lemma_pivot_step_wf(rows, m, r, c);
    } else {
        let s = first_nonzero_below(rows, r + 1, c);
        if s < rows.len() {
            lemma_first_nonzero_below_range(rows, r + 1, c);
            lemma_swap_rows_wf(rows, m, r, s);
            lemma_pivot_step_wf(swap_rows(rows, r, s), m, r, c);
        } else {
            lemma_process_row_wf(rows, m, r, c + 1);
        }
    }
}

/// The whole reduction preserves well-formedness, the row count and the
/// column count.
pub proof fn lemma_reduce_wf(rows: Grid, m: int, r: int)
    requires
        grid_wf(rows, m),
    ensures
        grid_wf(reduce_from(rows, r), m),
        reduce_from(rows, r).len() == rows.len(),
        n_cols(reduce_from(rows, r)) == n_cols(rows),
    decreases rows.len() - r,
{
    if 0 <= r < rows.len() {
        lemma_process_row_wf(rows, m, r, 0);
        lemma_reduce_wf(process_row_from(rows, r, 0), m, r + 1);
    }
}

/// The index returned by the search for a non-zero entry lies in
/// `[lo, rows.len()]`; when it is a real row, that row's entry is non-zero,
/// and every row of `[lo, ..)` before it holds zero in the column.
pub proof fn lemma_first_nonzero_below_range(rows: Grid, lo: int, c: int)
    requires
        0 <= lo <= rows.len(),
    ensures
        lo <= first_nonzero_below(rows, lo, c) <= rows.len(),
        first_nonzero_below(rows, lo, c) < rows.len() ==> rows[first_nonzero_below(
            rows,
            lo,
            c,
        )][c].value != 0,
        forall|j: int|
            lo <= j < first_nonzero_below(rows, lo, c) ==> (#[trigger] rows[j][c]).value == 0,
    decreases rows.len() - lo,
{
    if lo < rows.len() && rows[lo][c].value == 0 {
        lemma_first_nonzero_below_range(rows, lo + 1, c);
    }
}

/// Conversely, if every row of `[lo, s)` holds zero in column `c` and row
/// `s` (when it exists) does not, the search finds exactly `s`.
pub proof fn lemma_first_nonzero_below_is(rows: Grid, lo: int, s: int, c: int)
    requires
        0 <= lo <= s <= rows.len(),
        forall|t: int| lo <= t < s ==> (#[trigger] rows[t][c]).value == 0,
        s < rows.len() ==> rows[s][c].value != 0,
    ensures
        first_nonzero_below(rows, lo, c) == s,
    decreases s - lo,
{
    if lo < s {
        lemma_first_nonzero_below_is(rows, lo + 1, s, c);
    }
}

/// Scaling a row of canonical elements yields canonical elements under the
/// same modulus.
pub proof fn lemma_scale_row_wf(row: Seq<GFElement>, m: int, c: int, p: GFElement)
    requires
        1 <= m,
        forall|j: int| 0 <= j < row.len() ==> (#[trigger] row[j]).wf() && row[j].modulus == m,
    ensures
        scale_row_from(row, c, p).len() == row.len(),
        forall|j: int|
            0 <= j < row.len() ==> (#[trigger] scale_row_from(row, c, p)[j]).wf()
                && scale_row_from(row, c, p)[j].modulus == m,
{
}



/// A row whose every entry is zero.
pub open spec fn zero_row(row: Seq<GFElement>) -> bool {
    forall|j: int| 0 <= j < row.len() ==> (#[trigger] row[j]).value == 0
}

/// The structure that row-by-row elimination establishes for the first `r`
/// rows of a grid (and, through them, for the rows below):
/// every processed row with a leading entry leads with an exact one, its
/// leading column is zero in every other row, leading columns strictly
/// increase down the processed rows, a processed row without a leading
/// entry is all zero together with everything below it, and the rows not
/// yet processed are zero in every column up to each processed leading
/// column.
pub open spec fn reduced_upto(rows: Grid, r: int) -> bool {
    &&& (forall|i: int|
        0 <= i < r && row_lead(#[trigger] rows[i]) < n_cols(rows) ==> rows[i][row_lead(
            rows[i],
        )].value == 1)
    &&& (forall|i: int, o: int|
        #![trigger row_lead(rows[i]), rows[o]]
        0 <= i < r && 0 <= o < rows.len() && o != i && row_lead(rows[i]) < n_cols(rows)
            ==> rows[o][row_lead(rows[i])].value == 0)
    &&& (forall|i: int, j: int|
        #![trigger row_lead(rows[i]), row_lead(rows[j])]
        0 <= i < j < r && row_lead(rows[j]) < n_cols(rows) ==> row_lead(rows[i]) < row_lead(
            rows[j],
        ))
    &&& (forall|i: int, j: int|
        #![trigger row_lead(rows[i]), rows[j]]
        0 <= i < r && row_lead(rows[i]) == n_cols(rows) && i <= j < rows.len() ==> zero_row(
            rows[j],
        ))
    &&& (forall|i: int, j: int, col: int|
        #![trigger row_lead(rows[i]), rows[j][col]]
        0 <= i < r && row_lead(rows[i]) < n_cols(rows) && r <= j < rows.len() && 0 <= col
            <= row_lead(rows[i]) ==> rows[j][col].value == 0)
}

/// The structure of a fully reduced grid.
pub open spec fn is_rref(rows: Grid) -> bool {
    reduced_upto(rows, rows.len() as int)
}

/// After a pivot at row `r`, column `c` — the entry there non-zero, every
/// row at or below `r` zero to the left of `c` — the structure extends to
/// one more processed row.
proof fn lemma_pivot_establishes(rows: Grid, m: int, r: int, c: int)
    requires
        grid_wf(rows, m),
        invertible_modulus(m),
        0 <= r < rows.len(),
        0 <= c < n_cols(rows),
        reduced_upto(rows, r),
        rows[r][c].value != 0,
        forall|j: int, col: int|
            #![trigger rows[j][col]]
            r <= j < rows.len() && 0 <= col < c ==> rows[j][col].value == 0,
    ensures
        reduced_upto(pivot_step(rows, r, c), r + 1),
{
    let nc = n_cols(rows);
    let p = rows[r][c];
    let scaled = scale_row_from(rows[r], c, p);
    let out = pivot_step(rows, r, c);
    assert(p.wf() && p.modulus == m && 0 < p.value < m);
    lemma_inverse_works(p.value as int, m);
    assert(scaled[c] == gf_div(p, p));
    assert(scaled[c].value == 1);
    assert(scaled[c].modulus == m);
    assert(out.len() == rows.len());
    assert(out[r] == scaled);
    assert(scaled.len() == nc);
    lemma_pivot_step_wf(rows, m, r, c);

    // Entries to the left of the pivot column are untouched in every row.
    assert forall|o: int, col: int|
        0 <= o < rows.len() && 0 <= col < c implies #[trigger] out[o][col] == rows[o][col] by {
        if o != r && rows[o][c].value != 0 {
            assert(out[o] == eliminate_row(rows[o], scaled, c));
        }
    }

    // The new pivot row leads at column c with a one.
    assert forall|col: int| 0 <= col < c implies (#[trigger] out[r][col]).value == 0 by {
        assert(rows[r][col].value == 0);
    }
    lemma_row_lead_is(out[r], 0, c);
    assert(row_lead(out[r]) == c);

    // The pivot column is zero in every other row.
    assert forall|o: int| 0 <= o < rows.len() && o != r implies (#[trigger] out[o])[c].value == 0
        by {
        if rows[o][c].value != 0 {
            assert(out[o] == eliminate_row(rows[o], scaled, c));
            assert(out[o][c] == gf_sub(rows[o][c], gf_mul(rows[o][c], scaled[c])));
            lemma_cancel_self(rows[o][c], scaled[c]);
        }
    }

    // No earlier processed row is all zero: row r itself is not.
    assert forall|i: int| 0 <= i < r implies row_lead(#[trigger] rows[i]) < nc by {
        lemma_row_lead_range(rows[i], 0);
        if row_lead(rows[i]) == nc {
            assert(zero_row(rows[r]));
            assert(rows[r][c].value == 0);
        }
    }

    // Every earlier pivot column lies strictly left of c.
    assert forall|i: int| 0 <= i < r implies row_lead(#[trigger] rows[i]) < c by {
        if c <= row_lead(rows[i]) {
            assert(rows[r][c].value == 0);
        }
    }

    // Earlier processed rows keep their lead and their leading one.
    assert forall|i: int| 0 <= i < r implies row_lead(#[trigger] out[i]) == row_lead(rows[i])
        && out[i][row_lead(rows[i])].value == 1 by {
        let l = row_lead(rows[i]);
        lemma_row_lead_range(rows[i], 0);
        assert forall|k: int| 0 <= k < l implies (#[trigger] out[i][k]).value == 0 by {
            assert(out[i][k] == rows[i][k]);
        }
        assert(out[i][l] == rows[i][l]);
        lemma_row_lead_is(out[i], 0, l);
    }

    // The five structure clauses, for the r + 1 processed rows.
    assert forall|i: int|
        0 <= i < r + 1 && row_lead(#[trigger] out[i]) < n_cols(out) implies out[i][row_lead(
        out[i],
    )].value == 1 by {
        if i < r {
            assert(out[i][row_lead(rows[i])].value == 1);
        }
    }
    assert forall|i: int, o: int|
        #![trigger row_lead(out[i]), out[o]]
        0 <= i < r + 1 && 0 <= o < out.len() && o != i && row_lead(out[i]) < n_cols(out) implies
        out[o][row_lead(out[i])].value == 0 by {
        if i < r {
            let l = row_lead(rows[i]);
            lemma_row_lead_range(rows[i], 0);
            assert(row_lead(out[i]) == l);
            assert(rows[o][l].value == 0);
            assert(out[o][l] == rows[o][l]);
        } else {
            assert(row_lead(out[r]) == c);
        }
    }
    assert forall|i: int, j: int|
        #![trigger row_lead(out[i]), row_lead(out[j])]
        0 <= i < j < r + 1 && row_lead(out[j]) < n_cols(out) implies row_lead(out[i]) < row_lead(
        out[j],
    ) by {
        assert(row_lead(out[i]) == row_lead(rows[i]));
        if j < r {
            assert(row_lead(out[j]) == row_lead(rows[j]));
        } else {
            assert(row_lead(out[j]) == c);
            assert(row_lead(rows[i]) < c);
        }
    }
    assert forall|i: int, j: int|
        #![trigger row_lead(out[i]), out[j]]
        0 <= i < r + 1 && row_lead(out[i]) == n_cols(out) && i <= j < out.len() implies zero_row(
        out[j],
    ) by {
        if i < r {
            assert(row_lead(out[i]) == row_lead(rows[i]));
            assert(row_lead(rows[i]) < nc);
        } else {
            assert(row_lead(out[r]) == c);
        }
    }
    assert forall|i: int, j: int, col: int|
        #![trigger row_lead(out[i]), out[j][col]]
        0 <= i < r + 1 && row_lead(out[i]) < n_cols(out) && r + 1 <= j < out.len() && 0 <= col
            <= row_lead(out[i]) implies out[j][col].value == 0 by {
        if i < r {
            let l = row_lead(rows[i]);
            lemma_row_lead_range(rows[i], 0);
            assert(row_lead(out[i]) == l);
            assert(col < c);
            assert(out[j][col] == rows[j][col]);
            assert(rows[j][col].value == 0);
        } else {
            assert(row_lead(out[i]) == c);
            if col < c {
                assert(out[j][col] == rows[j][col]);
                assert(rows[j][col].value == 0);
            } else {
                assert(col == c);
                assert(out[j][c].value == 0);
            }
        }
    }
}


/// Swapping row `r` with a lower row preserves the structure of the first
/// `r` processed rows and the dead region left of the scan column.
proof fn lemma_swap_preserves(rows: Grid, m: int, r: int, s: int, c: int)
    requires
        grid_wf(rows, m),
        0 <= r < s < rows.len(),
        0 <= c <= n_cols(rows),
        reduced_upto(rows, r),
        forall|j: int, col: int|
            #![trigger rows[j][col]]
            r <= j < rows.len() && 0 <= col < c ==> rows[j][col].value == 0,
    ensures
        reduced_upto(swap_rows(rows, r, s), r),
        forall|j: int, col: int|
            #![trigger swap_rows(rows, r, s)[j][col]]
            r <= j < rows.len() && 0 <= col < c ==> swap_rows(rows, r, s)[j][col].value == 0,
{
    let sw = swap_rows(rows, r, s);
    assert(sw.len() == rows.len());
    assert(forall|i: int| 0 <= i < r ==> #[trigger] sw[i] == rows[i]);
    assert(sw[r] == rows[s] && sw[s] == rows[r]);
    assert forall|j: int, col: int|
        #![trigger sw[j][col]]
        r <= j < rows.len() && 0 <= col < c implies sw[j][col].value == 0 by {
        if j == r {
            assert(rows[s][col].value == 0);
        } else if j == s {
            assert(rows[r][col].value == 0);
        } else {
            assert(rows[j][col].value == 0);
        }
    }
    assert forall|i: int, o: int|
        #![trigger row_lead(sw[i]), sw[o]]
        0 <= i < r && 0 <= o < sw.len() && o != i && row_lead(sw[i]) < n_cols(sw) implies
        sw[o][row_lead(sw[i])].value == 0 by {
        let l = row_lead(rows[i]);
        lemma_row_lead_range(rows[i], 0);
        if o == r {
            assert(sw[o] == rows[s]);
            assert(rows[s][l].value == 0);
        } else if o == s {
            assert(sw[o] == rows[r]);
            assert(rows[r][l].value == 0);
        } else {
            assert(sw[o] == rows[o]);
        }
    }
    assert forall|i: int, j: int|
        #![trigger row_lead(sw[i]), sw[j]]
        0 <= i < r && row_lead(sw[i]) == n_cols(sw) && i <= j < sw.len() implies zero_row(sw[j])
        by {
        assert(sw[i] == rows[i]);
        if j == r {
            assert(zero_row(rows[s]));
        } else if j == s {
            assert(zero_row(rows[r]));
        } else {
            assert(zero_row(rows[j]));
        }
    }
    assert forall|i: int, j: int, col: int|
        #![trigger row_lead(sw[i]), sw[j][col]]
        0 <= i < r && row_lead(sw[i]) < n_cols(sw) && r <= j < sw.len() && 0 <= col <= row_lead(
        sw[i]) implies sw[j][col].value == 0 by {
        assert(sw[i] == rows[i]);
        if j == r {
            assert(rows[s][col].value == 0);
        } else if j == s {
            assert(rows[r][col].value == 0);
        } else {
            assert(rows[j][col].value == 0);
        }
    }
}

/// Scanning row `r` from column `c`, with every column before `c` dead for
/// the rows at and below `r`, extends the structure to row `r`.
proof fn lemma_scan_establishes(rows: Grid, m: int, r: int, c: int)
    requires
        grid_wf(rows, m),
        invertible_modulus(m),
        0 <= r < rows.len(),
        0 <= c <= n_cols(rows),
        reduced_upto(rows, r),
        forall|j: int, col: int|
            #![trigger rows[j][col]]
            r <= j < rows.len() && 0 <= col < c ==> rows[j][col].value == 0,
    ensures
        reduced_upto(process_row_from(rows, r, c), r + 1),
    decreases n_cols(rows) - c,
{
    let nc = n_cols(rows);
    if c >= nc {
        assert(process_row_from(rows, r, c) == rows);
        assert forall|j: int| r <= j < rows.len() implies zero_row(#[trigger] rows[j]) by {
            assert forall|col: int| 0 <= col < rows[j].len() implies (#[trigger] rows[j][col]).value
                == 0 by {}
        }
        lemma_row_lead_is(rows[r], 0, rows[r].len() as int);
        assert(row_lead(rows[r]) == nc);
        assert forall|i: int|
            0 <= i < r + 1 && row_lead(#[trigger] rows[i]) < n_cols(rows) implies rows[i][row_lead(
            rows[i],
        )].value == 1 by {}
        assert forall|i: int, j: int|
            #![trigger row_lead(rows[i]), row_lead(rows[j])]
            0 <= i < j < r + 1 && row_lead(rows[j]) < n_cols(rows) implies row_lead(rows[i])
            < row_lead(rows[j]) by {}
        assert(reduced_upto(rows, r + 1));
    } else if rows[r][c].value != 0 {
        lemma_pivot_establishes(rows, m, r, c);
    } else {
        let s = first_nonzero_below(rows, r + 1, c);
        lemma_first_nonzero_below_range(rows, r + 1, c);
        if s < rows.len() {
            lemma_swap_preserves(rows, m, r, s, c);
            lemma_swap_rows_wf(rows, m, r, s);
            let sw = swap_rows(rows, r, s);
            assert(sw[r][c].value != 0);
            lemma_pivot_establishes(sw, m, r, c);
        } else {
            assert forall|j: int, col: int|
                #![trigger rows[j][col]]
                r <= j < rows.len() && 0 <= col < c + 1 implies rows[j][col].value == 0 by {
                if col == c && j > r {
                    assert(rows[j][c].value == 0);
                }
            }
            lemma_scan_establishes(rows, m, r, c + 1);
        }
    }
}

/// Row-by-row reduction from `r` establishes the structure for the whole
/// grid, given that it already holds for the first `r` rows.
proof fn lemma_reduce_establishes(rows: Grid, m: int, r: int)
    requires
        grid_wf(rows, m),
        invertible_modulus(m),
        0 <= r <= rows.len(),
        reduced_upto(rows, r),
    ensures
        is_rref(reduce_from(rows, r)),
    decreases rows.len() - r,
{
    if r < rows.len() {
        lemma_scan_establishes(rows, m, r, 0);
        lemma_process_row_wf(rows, m, r, 0);
        lemma_reduce_establishes(process_row_from(rows, r, 0), m, r + 1);
    }
}

/// The reduction always produces the reduced structure: leading ones,
/// pivot columns cleared elsewhere and strictly increasing down the rows,
/// all-zero rows only at the bottom.
pub proof fn lemma_rref_structure(rows: Grid, m: int)
    requires
        grid_wf(rows, m),
        invertible_modulus(m),
    ensures
        is_rref(rref(rows)),
{
    lemma_reduce_establishes(rows, m, 0);
}

/// Every row of a reduced grid either is all zero or has an exact one as
/// its leading entry.
pub proof fn lemma_rref_leading_ones(rows: Grid, m: int)
    requires
        grid_wf(rows, m),
        invertible_modulus(m),
    ensures
        every_row_pivot(rref(rows)),
{
    lemma_rref_structure(rows, m);
    lemma_reduce_wf(rows, m, 0);
    let out = rref(rows);
    assert forall|i: int| 0 <= i < out.len() implies row_lead(#[trigger] out[i]) == out[i].len()
        || out[i][row_lead(out[i])].value == 1 by {
        lemma_row_lead_range(out[i], 0);
    }
}

/// In the coefficient part of a reduced grid — the grid without its
/// augmentation column — every row still either is all zero or has an
/// exact one as its leading entry.
pub proof fn lemma_rref_coefficient_leading_ones(rows: Grid, m: int)
    requires
        grid_wf(rows, m),
        invertible_modulus(m),
    ensures
        every_row_pivot(unaugmented(rref(rows))),
{
    lemma_rref_structure(rows, m);
    lemma_reduce_wf(rows, m, 0);
    let out = rref(rows);
    let nc = n_cols(out);
    let un = unaugmented(out);
    assert forall|i: int| 0 <= i < un.len() implies row_lead(#[trigger] un[i]) == un[i].len()
        || un[i][row_lead(un[i])].value == 1 by {
        let l = row_lead(out[i]);
        lemma_row_lead_range(out[i], 0);
        assert(un[i] == out[i].subrange(0, nc - 1));
        assert(un[i].len() == nc - 1);
        if l < nc - 1 {
            assert forall|k: int| 0 <= k < l implies (#[trigger] un[i][k]).value == 0 by {
                assert(un[i][k] == out[i][k]);
            }
            assert(un[i][l] == out[i][l]);
            lemma_row_lead_is(un[i], 0, l);
            assert(un[i][l].value == 1);
        } else {
            assert forall|k: int| 0 <= k < nc - 1 implies (#[trigger] un[i][k]).value == 0 by {
                assert(un[i][k] == out[i][k]);
            }
            lemma_row_lead_is(un[i], 0, (nc - 1) as int);
        }
    }
}

/// Processing any one row of a grid that already carries the reduced
/// structure changes nothing.
proof fn lemma_fix_scan(rows: Grid, m: int, r: int, c: int)
    requires
        grid_wf(rows, m),
        invertible_modulus(m),
        0 <= r < rows.len(),
        is_rref(rows),
        0 <= c <= row_lead(rows[r]),
    ensures
        process_row_from(rows, r, c) == rows,
    decreases n_cols(rows) - c,
{
    let nc = n_cols(rows);
    let l = row_lead(rows[r]);
    lemma_row_lead_range(rows[r], 0);
    if c >= nc {
    } else if c < l {
        assert(rows[r][c].value == 0);
        assert forall|t: int| r + 1 <= t < rows.len() implies (#[trigger] rows[t])[c].value == 0
            by {
            lemma_row_lead_range(rows[t], 0);
            if row_lead(rows[t]) == nc {
                assert(rows[t][c].value == 0);
            } else {
                assert(row_lead(rows[r]) < row_lead(rows[t]));
                assert(rows[t][c].value == 0);
            }
        }
        lemma_first_nonzero_below_is(rows, r + 1, rows.len() as int, c);
        lemma_fix_scan(rows, m, r, c + 1);
    } else {
        assert(c == l);
        assert(rows[r][c].value == 1);
        let p = rows[r][c];
        let scaled = scale_row_from(rows[r], c, p);
        assert forall|j: int| 0 <= j < rows[r].len() implies #[trigger] scaled[j] == rows[r][j]
            by {
            if j >= c {
                crate::finite_field::lemma_div_by_one(rows[r][j], p);
            }
        }
        assert(scaled =~= rows[r]);
        assert forall|o: int| 0 <= o < rows.len() implies #[trigger] pivot_step(rows, r, c)[o]
            == rows[o] by {
            if o != r {
                assert(rows[o][c].value == 0);
            }
        }
        assert(pivot_step(rows, r, c) =~= rows);
    }
}

/// Reducing a grid that already carries the reduced structure changes
/// nothing.
pub proof fn lemma_rref_fixpoint(rows: Grid, m: int)
    requires
        grid_wf(rows, m),
        invertible_modulus(m),
        is_rref(rows),
    ensures
        rref(rows) == rows,
{
    lemma_fix_reduce(rows, m, 0);
}

proof fn lemma_fix_reduce(rows: Grid, m: int, r: int)
    requires
        grid_wf(rows, m),
        invertible_modulus(m),
        is_rref(rows),
        0 <= r <= rows.len(),
    ensures
        reduce_from(rows, r) == rows,
    decreases rows.len() - r,
{
    if r < rows.len() {
        lemma_row_lead_range(rows[r], 0);
        lemma_fix_scan(rows, m, r, 0);
        lemma_fix_reduce(rows, m, r + 1);
    }
}

/// Reduction is idempotent: reducing a reduced grid reproduces it, row for
/// row and entry for entry.
pub proof fn lemma_rref_idempotent(rows: Grid, m: int)
    requires
        grid_wf(rows, m),
        invertible_modulus(m),
    ensures
        rref(rref(rows)) == rref(rows),
{
    lemma_rref_structure(rows, m);
    lemma_reduce_wf(rows, m, 0);
    lemma_rref_fixpoint(rref(rows), m);
}


/// A pivot operation keeps some contradiction row in the grid: a pivot in a
/// coefficient column never touches a contradiction row, and a pivot in the
/// augmentation column turns the pivot row itself into one.
proof fn lemma_contra_pivot(rows: Grid, m: int, r: int, c: int)
    requires
        grid_wf(rows, m),
        invertible_modulus(m),
        0 <= r < rows.len(),
        0 <= c < n_cols(rows),
        any_contra_row(rows),
        rows[r][c].value != 0,
        forall|j: int, col: int|
            #![trigger rows[j][col]]
            r <= j < rows.len() && 0 <= col < c ==> rows[j][col].value == 0,
    ensures
        any_contra_row(pivot_step(rows, r, c)),
{
    let nc = n_cols(rows);
    let out = pivot_step(rows, r, c);
    let p = rows[r][c];
    let scaled = scale_row_from(rows[r], c, p);
    lemma_pivot_step_wf(rows, m, r, c);
    if c < nc - 1 {
        let t = choose|i: int| 0 <= i < rows.len() && is_contra_row(#[trigger] rows[i]);
        assert(is_contra_row(rows[t]));
        assert(rows[t][c].value == 0);
        assert(t != r);
        assert(out[t] == rows[t]);
        assert(any_contra_row(out)) by {
            assert(is_contra_row(out[t]));
        }
    } else {
        assert(p.wf() && p.modulus == m && 0 < p.value < m);
        lemma_inverse_works(p.value as int, m);
        assert(scaled[c] == gf_div(p, p));
        assert(scaled[c].value == 1);
        assert(out[r] == scaled);
        assert(scaled.len() == nc);
        assert forall|col: int| 0 <= col < nc - 1 implies (#[trigger] out[r][col]).value == 0 by {
            assert(rows[r][col].value == 0);
        }
        assert(out[r][nc - 1].value == 1);
        assert(any_contra_row(out)) by {
            assert(is_contra_row(out[r]));
        }
    }
}

/// Scanning one row for a pivot keeps some contradiction row in the grid.
proof fn lemma_contra_scan(rows: Grid, m: int, r: int, c: int)
    requires
        grid_wf(rows, m),
        invertible_modulus(m),
        0 <= r < rows.len(),
        0 <= c <= n_cols(rows),
        any_contra_row(rows),
        forall|j: int, col: int|
            #![trigger rows[j][col]]
            r <= j < rows.len() && 0 <= col < c ==> rows[j][col].value == 0,
    ensures
        any_contra_row(process_row_from(rows, r, c)),
    decreases n_cols(rows) - c,
{
    let nc = n_cols(rows);
    if c >= nc {
    } else if rows[r][c].value != 0 {
        lemma_contra_pivot(rows, m, r, c);
    } else {
        let s = first_nonzero_below(rows, r + 1, c);
        lemma_first_nonzero_below_range(rows, r + 1, c);
        if s < rows.len() {
            let sw = swap_rows(rows, r, s);
            lemma_swap_rows_wf(rows, m, r, s);
            let t = choose|i: int| 0 <= i < rows.len() && is_contra_row(#[trigger] rows[i]);
            let t2 = if t == r {
                s
            } else if t == s {
                r
            } else {
                t
            };
            assert(sw[t2] == rows[t]);
            assert(any_contra_row(sw)) by {
                assert(is_contra_row(sw[t2]));
            }
            assert forall|j: int, col: int|
                #![trigger sw[j][col]]
                r <= j < sw.len() && 0 <= col < c implies sw[j][col].value == 0 by {
                if j == r {
                    assert(rows[s][col].value == 0);
                } else if j == s {
                    assert(rows[r][col].value == 0);
                } else {
                    assert(rows[j][col].value == 0);
                }
            }
            assert(sw[r][c].value != 0);
            lemma_contra_pivot(sw, m, r, c);
        } else {
            assert forall|j: int, col: int|
                #![trigger rows[j][col]]
                r <= j < rows.len() && 0 <= col < c + 1 implies rows[j][col].value == 0 by {
                if col == c && j > r {
                    assert(rows[j][c].value == 0);
                }
            }
            lemma_contra_scan(rows, m, r, c + 1);
        }
    }
}

proof fn lemma_contra_reduce(rows: Grid, m: int, r: int)
    requires
        grid_wf(rows, m),
        invertible_modulus(m),
        0 <= r <= rows.len(),
        any_contra_row(rows),
    ensures
        any_contra_row(reduce_from(rows, r)),
    decreases rows.len() - r,
{
    if r < rows.len() {
        lemma_contra_scan(rows, m, r, 0);
        lemma_process_row_wf(rows, m, r, 0);
        lemma_contra_reduce(process_row_from(rows, r, 0), m, r + 1);
    }
}

/// A grid holding a contradiction row — all coefficients zero, augmentation
/// non-zero — is never solvable, whatever its other rows hold.
pub proof fn lemma_contra_unsolvable(rows: Grid, m: int)
    requires
        grid_wf(rows, m),
        invertible_modulus(m),
        any_contra_row(rows),
    ensures
        !solvable(rows),
{
    lemma_contra_reduce(rows, m, 0);
}

} // verus!
