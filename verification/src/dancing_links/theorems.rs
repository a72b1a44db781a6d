use vstd::prelude::*;
use crate::dancing_links::cells::Cell;
use crate::dancing_links::counting::{lemma_count_with_empty_column, lemma_count_without_columns};
use crate::dancing_links::covering::lemma_cover;
use crate::dancing_links::exact::{branch_sum, exact_covers, lemma_branching};
use crate::dancing_links::matrix::MatrixView;
use crate::dancing_links::problem::lemma_cover_active;
use crate::dancing_links::soundness::lemma_count_is_exact;

verus! {

/// Covering a column and uncovering it at once gives the matrix back as it
/// was: the header list, every link of every row and column list, and every
/// column size.
pub proof fn lemma_uncover_undoes_cover(s: MatrixView, c: Cell)
    requires
        s.wf(),
        s.is_live(c),
    ensures
        s.cover(c).uncover(c) == s,
        s.cover(c).uncover(c).hlinks == s.hlinks,
        s.cover(c).uncover(c).vlinks == s.vlinks,
        s.cover(c).uncover(c).sizes == s.sizes,
        s.cover(c).uncover(c).headers == s.headers,
{
    lemma_cover(s, c);
}

/// In a well-formed matrix the size of each column is the number of cells
/// that a walk along the list of the column meets, whether covers are
/// pending or not.
pub proof fn lemma_sizes_count_cells(s: MatrixView, h: Cell)
    requires
        s.wf(),
        s.is_header(h),
    ensures
        s.sizes[h.0 as int] == s.column_cells(h).len(),
{
    assert(s.column_ok(h));
}

/// Covering a column keeps the matrix well formed, so the sizes still count
/// the cells of the column lists; and uncovering it leads back to a
/// well-formed matrix, the one before the cover.
pub proof fn lemma_sizes_stay_right(s: MatrixView, c: Cell, h: Cell)
    requires
        s.wf(),
        s.is_live(c),
        s.is_header(h),
    ensures
        s.cover(c).sizes[h.0 as int] == s.cover(c).column_cells(h).len(),
        s.cover(c).uncover(c).sizes[h.0 as int] == s.cover(c).uncover(c).column_cells(h).len(),
{
    lemma_cover(s, c);
    assert(s.cover(c).is_header(h));
    assert(s.cover(c).column_ok(h));
    assert(s.column_ok(h));
}

/// What covering a column does to the exact-cover problem: the column is
/// no longer to be covered, and the rows that stand in it can no longer be
/// chosen.
pub proof fn lemma_cover_narrows(s: MatrixView, c: Cell)
    requires
        s.wf(),
        s.is_live(c),
    ensures
        s.cover(c).open_columns() == s.open_columns().remove(c),
        forall|x: Cell|
            s.is_content(x) ==> (#[trigger] s.cover(c).is_active(x) <==> s.is_active(x) && !s.columns_of(x).contains(c)),
{
    lemma_cover(s, c);
    lemma_cover_active(s, c);
    assert(s.cover(c).open_columns() =~= s.open_columns().remove(c));
}

/// A column that is to be covered but has no cell cannot be covered:
/// whatever the other columns hold, there is no exact cover.
pub proof fn lemma_empty_column_no_cover(s: MatrixView, h: Cell)
    requires
        s.wf(),
        s.is_live(h),
        s.sizes[h.0 as int] == 0,
    ensures
        exact_covers(s.open_rows(), s.open_columns()) == 0,
{
    lemma_count_with_empty_column(s, h);
    lemma_count_is_exact(s);
}

/// Without a column to cover there is exactly one exact cover: the one that
/// chooses no row.
pub proof fn lemma_no_column_one_cover(s: MatrixView)
    requires
        s.wf(),
        s.live_columns().len() == 0,
    ensures
        exact_covers(s.open_rows(), s.open_columns()) == 1,
{
    lemma_count_without_columns(s);
    lemma_count_is_exact(s);
}

/// A column that no row stands in cannot be covered.
pub proof fn lemma_unreached_column_no_cover(rows: Seq<Set<Cell>>, columns: Set<Cell>, c: Cell)
    requires
        columns.contains(c),
        forall|j: int| 0 <= j < rows.len() ==> !(#[trigger] rows[j]).contains(c),
    ensures
        exact_covers(rows, columns) == 0,
{
    lemma_branching(rows, columns, c);
    lemma_branch_sum_nothing(rows, columns, c, rows.len() as int);
}

/// Where no row stands in column `c`, no row can be chosen for it.
proof fn lemma_branch_sum_nothing(rows: Seq<Set<Cell>>, columns: Set<Cell>, c: Cell, n: int)
    requires
        n <= rows.len(),
        forall|j: int| 0 <= j < rows.len() ==> !(#[trigger] rows[j]).contains(c),
    ensures
        branch_sum(rows, rows, columns, c, n) == 0,
    decreases n,
{
    if n > 0 {
        lemma_branch_sum_nothing(rows, columns, c, n - 1);
        assert(!rows[n - 1].contains(c));
    }
}

} // verus!
