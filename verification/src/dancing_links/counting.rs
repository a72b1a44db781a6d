use vstd::prelude::*;
use crate::dancing_links::cells::Cell;
use crate::dancing_links::covering::{lemma_cover, lemma_row_mates};
use crate::dancing_links::matrix::MatrixView;

verus! {

/// The first of `cols` that has the least size.
pub open spec fn least(sizes: Seq<usize>, cols: Seq<Cell>) -> Cell
    decreases cols.len(),
{
    if cols.len() <= 1 {
        cols[0]
    } else {
        let best = least(sizes, cols.drop_last());
        if sizes[cols.last().0 as int] < sizes[best.0 as int] {
            cols.last()
        } else {
            best
        }
    }
}

/// A count as a machine word can hold it.
pub open spec fn clipped(n: nat) -> usize {
    if n <= usize::MAX {
        n as usize
    } else {
        usize::MAX
    }
}

impl MatrixView {
    /// The column that the search branches on: of the columns that are not
    /// covered, the first in list order that has the fewest cells.
    pub open spec fn pick(self) -> Cell {
        least(self.sizes, self.live_columns())
    }

    /// The columns of the other cells of the row of `i`, in row order.
    pub open spec fn row_columns(self, i: Cell) -> Seq<Cell> {
        Seq::new(self.row_cells(i).len(), |q: int| self.headers[self.row_cells(i)[q].0 as int])
    }

    /// The matrix after the columns `cols` were covered, first to last.
    pub open spec fn cover_all(self, cols: Seq<Cell>) -> MatrixView
        decreases cols.len(),
    {
        if cols.len() == 0 {
            self
        } else {
            self.cover_all(cols.drop_last()).cover(cols.last())
        }
    }

    /// The number of ways to complete an exact cover from this matrix, by a
    /// search that goes at most `depth` columns deep: one if no column is
    /// left uncovered; else, for the column picked, the sum over its rows.
    pub open spec fn count_within(self, depth: nat) -> nat
        decreases depth, 0nat,
    {
        if self.live_columns().len() == 0 {
            1
        } else if depth == 0 {
            0
        } else {
            let c = self.pick();
            self.cover(c).branches(c, self.column_cells(c).len(), (depth - 1) as nat)
        }
    }

    /// With column `c` covered: the sum, over the first `k` cells of the
    /// column, of the number of ways to complete an exact cover once the row
    /// of that cell is chosen, that is, once the other columns of the row
    /// are covered too.
    pub open spec fn branches(self, c: Cell, k: nat, depth: nat) -> nat
        decreases depth, 1 + k,
    {
        if k == 0 {
            0
        } else {
            let i = self.column_cells(c)[k - 1];
            self.branches(c, (k - 1) as nat, depth) + self.cover_all(self.row_columns(i)).count_within(depth)
        }
    }

    /// The number of ways to complete an exact cover from this matrix: the
    /// search never goes deeper than there are uncovered columns.
    pub open spec fn count(self) -> nat {
        self.count_within(self.live_columns().len())
    }
}

/// The column picked is one of the columns, and none has fewer cells.
pub proof fn lemma_least(sizes: Seq<usize>, cols: Seq<Cell>)
    requires
        cols.len() > 0,
    ensures
        cols.contains(least(sizes, cols)),
        forall|k: int| 0 <= k < cols.len() ==> sizes[(#[trigger] cols[k]).0 as int] >= sizes[least(sizes, cols).0 as int],
    decreases cols.len(),
{
    if cols.len() > 1 {
        let front = cols.drop_last();
        lemma_least(sizes, front);
        let best = least(sizes, front);
        let w = choose|w: int| 0 <= w < front.len() && front[w] == best;
        assert(cols[w] == best);
        assert(cols[cols.len() - 1] == cols.last());
        assert forall|k: int| 0 <= k < cols.len() implies sizes[(#[trigger] cols[k]).0 as int] >= sizes[least(
            sizes,
            cols,
        ).0 as int] by {
            if k < front.len() {
                assert(front[k] == cols[k]);
            }
        }
    } else {
        assert(cols[0] == least(sizes, cols));
    }
}

/// Covering columns that are not covered, one after the other, keeps the
/// matrix well formed, takes just these columns out of the header list, and
/// leaves the rows as they were.
#[verifier::rlimit(50)]
pub proof fn lemma_cover_all(s: MatrixView, cols: Seq<Cell>)
    requires
        s.wf(),
        cols.no_duplicates(),
        forall|k: int| 0 <= k < cols.len() ==> s.is_live(#[trigger] cols[k]),
    ensures
        s.cover_all(cols).wf(),
        s.cover_all(cols).headers == s.headers,
        s.cover_all(cols).sizes.len() == s.sizes.len(),
        s.cover_all(cols).live_columns().len() + cols.len() == s.live_columns().len(),
        forall|h: Cell| s.cover_all(cols).is_live(h) <==> (s.is_live(h) && !cols.contains(h)),
        forall|x: Cell| s.is_content(x) ==> #[trigger] s.cover_all(cols).row_cells(x) == s.row_cells(x),
    decreases cols.len(),
{
    if cols.len() > 0 {
        let front = cols.drop_last();
        let c = cols.last();
        let mid = s.cover_all(front);
        let t = s.cover_all(cols);
        lemma_cover_all(s, front);
        assert(cols[cols.len() - 1] == c);
        assert(!front.contains(c)) by {
            if front.contains(c) {
                let k = choose|k: int| 0 <= k < front.len() && front[k] == c;
                assert(cols[k] == c);
            }
        }
        assert(mid.is_live(c));
        lemma_cover(mid, c);
        assert forall|h: Cell| t.is_live(h) <==> (s.is_live(h) && !cols.contains(h)) by {
            if cols.contains(h) && h != c {
                let k = choose|k: int| 0 <= k < cols.len() && cols[k] == h;
                assert(front[k] == h);
            }
            if front.contains(h) {
                let k = choose|k: int| 0 <= k < front.len() && front[k] == h;
                assert(cols[k] == h);
            }
        }
        assert forall|x: Cell| s.is_content(x) implies #[trigger] t.row_cells(x) == s.row_cells(x) by {
            assert(mid.is_content(x));
            assert(mid.row_cells(x) == s.row_cells(x));
        }
    }
}

/// The other columns of a row that has a cell in play in an uncovered
/// column `c`: each is another column, none is covered, and they stay
/// uncovered when `c` is covered.
#[verifier::rlimit(50)]
pub proof fn lemma_row_columns(s: MatrixView, c: Cell, k: int)
    requires
        s.wf(),
        s.is_live(c),
        0 <= k < s.column_cells(c).len(),
    ensures
        ({
            let i = s.column_cells(c)[k];
            let cols = s.row_columns(i);
            &&& s.is_content(i)
            &&& s.cover(c).row_columns(i) == cols
            &&& cols.len() == s.row_cells(i).len()
            &&& cols.no_duplicates()
            &&& forall|q: int| 0 <= q < cols.len() ==> s.cover(c).is_live(#[trigger] cols[q])
        }),
{
    lemma_cover(s, c);
    assert(s.column_ok(c));
    let i = s.column_cells(c)[k];
    let row = s.row_cells(i);
    let cols = s.row_columns(i);
    assert(s.is_content(i));
    assert(s.in_play(i));
    assert(s.is_active(i));
    assert(s.row_active(i));
    assert(s.row_ok(i));
    assert(s.cover(c).row_cells(i) == row);
    assert(s.cover(c).row_columns(i) =~= cols);
    assert forall|q: int| 0 <= q < cols.len() implies s.cover(c).is_live(#[trigger] cols[q]) by {
        assert(s.is_active(row[q]));
        assert(s.is_content(row[q]));
    }
    assert forall|a: int, b: int| 0 <= a < cols.len() && 0 <= b < cols.len() && a != b implies cols[a]
        != cols[b] by {
        lemma_row_mates(s, i, row[a]);
        assert(row.contains(row[b]));
        assert(s.row_cells(row[a]).contains(row[b]));
        assert(s.is_content(row[a]));
        assert(s.row_ok(row[a]));
        let w = choose|w: int| 0 <= w < s.row_cells(row[a]).len() && s.row_cells(row[a])[w] == row[b];
        assert(s.headers[s.row_cells(row[a])[w].0 as int] != s.headers[row[a].0 as int]);
    }
}

/// A search that may go as deep as there are uncovered columns finds what
/// any deeper search finds.
pub proof fn lemma_depth(s: MatrixView, d1: nat, d2: nat)
    requires
        s.wf(),
        d1 >= s.live_columns().len(),
        d2 >= s.live_columns().len(),
    ensures
        s.count_within(d1) == s.count_within(d2),
    decreases s.live_columns().len(), 1nat, 0nat,
{
    if s.live_columns().len() > 0 {
        let c = s.pick();
        lemma_least(s.sizes, s.live_columns());
        lemma_cover(s, c);
        lemma_branches_depth(s, c, s.column_cells(c).len(), (d1 - 1) as nat, (d2 - 1) as nat);
    }
}

/// The same for the sum over the rows of a covered column.
pub proof fn lemma_branches_depth(s: MatrixView, c: Cell, k: nat, d1: nat, d2: nat)
    requires
        s.wf(),
        s.is_live(c),
        k <= s.column_cells(c).len(),
        d1 + 1 >= s.live_columns().len(),
        d2 + 1 >= s.live_columns().len(),
    ensures
        s.cover(c).branches(c, k, d1) == s.cover(c).branches(c, k, d2),
    decreases s.live_columns().len(), 0nat, k,
{
    if k > 0 {
        lemma_branches_depth(s, c, (k - 1) as nat, d1, d2);
        lemma_branch(s, c, k - 1);
        let i = s.column_cells(c)[k - 1];
        let t = s.cover(c).cover_all(s.row_columns(i));
        lemma_depth(t, d1, d2);
    }
}

/// One branch of the search: with column `c` covered and then the other
/// columns of the row of the `k`-th cell of `c`, the matrix is well formed
/// and has fewer uncovered columns than before.
pub proof fn lemma_branch(s: MatrixView, c: Cell, k: int)
    requires
        s.wf(),
        s.is_live(c),
        0 <= k < s.column_cells(c).len(),
    ensures
        ({
            let i = s.column_cells(c)[k];
            let t = s.cover(c).cover_all(s.row_columns(i));
            &&& s.cover(c).column_cells(c)[k] == i
            &&& s.cover(c).row_columns(i) == s.row_columns(i)
            &&& t.wf()
            &&& t.live_columns().len() + s.row_columns(i).len() + 1 == s.live_columns().len()
        }),
{
    lemma_cover(s, c);
    lemma_row_columns(s, c, k);
    let i = s.column_cells(c)[k];
    lemma_cover_all(s.cover(c), s.row_columns(i));
    let live = s.live_columns();
    assert(live.remove(live.index_of(c)).len() == live.len() - 1);
}

/// Without a column left to cover there is exactly one way to complete an
/// exact cover: to choose nothing more.
pub proof fn lemma_count_without_columns(s: MatrixView)
    requires
        s.live_columns().len() == 0,
    ensures
        s.count() == 1,
{
}

/// An uncovered column without a cell cannot be covered by any row: the
/// count is zero, whatever the other columns hold.
pub proof fn lemma_count_with_empty_column(s: MatrixView, h: Cell)
    requires
        s.wf(),
        s.is_live(h),
        s.sizes[h.0 as int] == 0,
    ensures
        s.count() == 0,
{
    let live = s.live_columns();
    lemma_least(s.sizes, live);
    let c = s.pick();
    let w = choose|w: int| 0 <= w < live.len() && live[w] == h;
    assert(s.sizes[live[w].0 as int] >= s.sizes[c.0 as int]);
    let v = choose|v: int| 0 <= v < live.len() && live[v] == c;
    assert(s.is_header(live[v]));
    assert(s.column_ok(c));
    assert(s.column_cells(c).len() == 0);
}

} // verus!
