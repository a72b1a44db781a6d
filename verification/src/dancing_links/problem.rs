use vstd::prelude::*;
use crate::dancing_links::cells::Cell;
use crate::dancing_links::counting::{lemma_cover_all, lemma_row_columns};
use crate::dancing_links::covering::{lemma_cover, lemma_row_mates};
use crate::dancing_links::exact::apart;
use crate::dancing_links::matrix::MatrixView;

verus! {

/// None of `cols` lies in `set`.
pub open spec fn misses_all(cols: Seq<Cell>, set: Set<Cell>) -> bool {
    forall|q: int| 0 <= q < cols.len() ==> !set.contains(#[trigger] cols[q])
}

impl MatrixView {
    /// The columns in which the row of `x` has a cell.
    pub open spec fn columns_of(self, x: Cell) -> Set<Cell> {
        Set::new(|h: Cell| h == self.headers[x.0 as int] || self.row_columns(x).contains(h))
    }

    /// `x` is the cell of its row that was allocated first.
    pub open spec fn leads(self, x: Cell) -> bool {
        forall|q: int| 0 <= q < self.row_cells(x).len() ==> (#[trigger] self.row_cells(x)[q]).0 > x.0
    }

    /// The rows that are in play and whose first cell stands below index
    /// `n`, each as the set of its columns, in the order of their first
    /// cells.
    pub open spec fn rows_below(self, n: int) -> Seq<Set<Cell>>
        decreases n,
    {
        if n <= self.sizes.len() {
            Seq::empty()
        } else {
            let x = Cell((n - 1) as usize);
            if self.leads(x) && self.is_active(x) {
                self.rows_below(n - 1).push(self.columns_of(x))
            } else {
                self.rows_below(n - 1)
            }
        }
    }

    /// The rows that can still be chosen, each as the set of its columns,
    /// in the order in which they were added: the rows that stand, with all
    /// their cells, in columns that are not covered.
    pub open spec fn open_rows(self) -> Seq<Set<Cell>> {
        self.rows_below(self.headers.len() as int)
    }

    /// The columns that are not covered.
    pub open spec fn open_columns(self) -> Set<Cell> {
        Set::new(|h: Cell| self.is_live(h))
    }
}

/// Two cells of one row stand in the same columns.
#[verifier::rlimit(50)]
pub proof fn lemma_same_columns(s: MatrixView, x: Cell, y: Cell)
    requires
        s.wf(),
        s.is_content(x),
        s.row_cells(x).contains(y),
    ensures
        s.is_content(y),
        s.columns_of(y) == s.columns_of(x),
{
    assert(s.row_ok(x));
    lemma_row_mates(s, x, y);
    assert(s.row_ok(y));
    let rx = s.row_cells(x);
    let ry = s.row_cells(y);
    assert forall|h: Cell| s.columns_of(y).contains(h) <==> s.columns_of(x).contains(h) by {
        if s.columns_of(y).contains(h) {
            if h == s.headers[y.0 as int] {
                let q = choose|q: int| 0 <= q < rx.len() && rx[q] == y;
                assert(s.row_columns(x)[q] == h);
            } else {
                let q = choose|q: int| 0 <= q < s.row_columns(y).len() && s.row_columns(y)[q] == h;
                let z = ry[q];
                assert(ry.contains(z));
                if z != x {
                    assert(rx.contains(z));
                    let w = choose|w: int| 0 <= w < rx.len() && rx[w] == z;
                    assert(s.row_columns(x)[w] == h);
                }
            }
        }
        if s.columns_of(x).contains(h) {
            if h == s.headers[x.0 as int] {
                assert(ry.contains(x));
                let q = choose|q: int| 0 <= q < ry.len() && ry[q] == x;
                assert(s.row_columns(y)[q] == h);
            } else {
                let q = choose|q: int| 0 <= q < s.row_columns(x).len() && s.row_columns(x)[q] == h;
                let z = rx[q];
                assert(rx.contains(z));
                if z != y {
                    assert(ry.contains(z));
                    let w = choose|w: int| 0 <= w < ry.len() && ry[w] == z;
                    assert(s.row_columns(y)[w] == h);
                }
            }
        }
    }
    assert(s.columns_of(y) =~= s.columns_of(x));
}

/// The rows in play after column `h` was covered are the rows that were in
/// play and have no cell in the column. What a row is made of does not
/// change.
#[verifier::rlimit(50)]
pub proof fn lemma_cover_active(s: MatrixView, h: Cell)
    requires
        s.wf(),
        s.is_live(h),
    ensures
        forall|x: Cell|
            s.is_content(x) ==> (#[trigger] s.cover(h).is_active(x) <==> s.is_active(x) && !s.columns_of(x).contains(h)),
        forall|x: Cell| s.is_content(x) ==> #[trigger] s.cover(h).columns_of(x) == s.columns_of(x),
        forall|x: Cell| s.is_content(x) ==> #[trigger] s.cover(h).leads(x) == s.leads(x),
{
    let t = s.cover(h);
    let col = s.column_cells(h);
    lemma_cover(s, h);
    assert(s.column_ok(h));
    assert forall|x: Cell| s.is_content(x) implies #[trigger] t.columns_of(x) == s.columns_of(x) by {
        assert(t.row_cells(x) == s.row_cells(x));
        assert(t.row_columns(x) =~= s.row_columns(x));
        assert(t.columns_of(x) =~= s.columns_of(x));
    }
    assert forall|x: Cell| s.is_content(x) implies #[trigger] t.leads(x) == s.leads(x) by {
        assert(t.row_cells(x) == s.row_cells(x));
    }
    assert forall|x: Cell| s.is_content(x) implies (#[trigger] t.is_active(x) <==> s.is_active(x)
        && !s.columns_of(x).contains(h)) by {
        assert(t.in_play(x) == (s.in_play(x) && !s.meets(col, x)));
        assert(s.row_ok(x));
        let row = s.row_cells(x);
        if t.is_active(x) {
            assert(s.is_active(x));
            assert(s.row_active(x));
            if s.row_columns(x).contains(h) {
                let q = choose|q: int| 0 <= q < s.row_columns(x).len() && s.row_columns(x)[q] == h;
                let y = row[q];
                assert(s.is_active(y));
                assert(s.is_content(y));
                assert(col.contains(y));
                let p = choose|p: int| 0 <= p < col.len() && col[p] == y;
                assert(row.contains(y));
                lemma_row_mates(s, x, y);
                assert(s.row_cells(col[p]).contains(x));
                assert(s.meets(col, x));
            }
        }
        if s.is_active(x) && !s.columns_of(x).contains(h) {
            if s.meets(col, x) {
                let p = choose|p: int| 0 <= p < col.len() && s.row_cells(#[trigger] col[p]).contains(x);
                let i = col[p];
                assert(s.is_content(i) && s.headers[i.0 as int] == h);
                assert(s.row_ok(i));
                lemma_row_mates(s, i, x);
                let q = choose|q: int| 0 <= q < row.len() && row[q] == i;
                assert(s.row_columns(x)[q] == h);
                assert(s.row_columns(x).contains(h));
            }
        }
    }
}

/// The same after several columns were covered.
#[verifier::rlimit(50)]
pub proof fn lemma_cover_all_active(s: MatrixView, cols: Seq<Cell>)
    requires
        s.wf(),
        cols.no_duplicates(),
        forall|k: int| 0 <= k < cols.len() ==> s.is_live(#[trigger] cols[k]),
    ensures
        forall|x: Cell|
            s.is_content(x) ==> (#[trigger] s.cover_all(cols).is_active(x) <==> s.is_active(x) && misses_all(
                cols,
                s.columns_of(x),
            )),
        forall|x: Cell| s.is_content(x) ==> #[trigger] s.cover_all(cols).columns_of(x) == s.columns_of(x),
        forall|x: Cell| s.is_content(x) ==> #[trigger] s.cover_all(cols).leads(x) == s.leads(x),
    decreases cols.len(),
{
    let t = s.cover_all(cols);
    if cols.len() > 0 {
        let front = cols.drop_last();
        let c = cols.last();
        let mid = s.cover_all(front);
        lemma_cover_all_active(s, front);
        lemma_cover_all(s, front);
        assert(cols[cols.len() - 1] == c);
        assert(!front.contains(c)) by {
            if front.contains(c) {
                let k = choose|k: int| 0 <= k < front.len() && front[k] == c;
                assert(cols[k] == c);
            }
        }
        assert(mid.is_live(c));
        lemma_cover_active(mid, c);
        assert forall|x: Cell| s.is_content(x) implies (#[trigger] t.is_active(x) <==> s.is_active(x) && misses_all(
            cols,
            s.columns_of(x),
        )) by {
            assert(mid.is_content(x));
            assert(mid.columns_of(x) == s.columns_of(x));
            assert(mid.is_active(x) <==> s.is_active(x) && misses_all(front, s.columns_of(x)));
            if misses_all(cols, s.columns_of(x)) {
                assert forall|q: int| 0 <= q < front.len() implies !s.columns_of(x).contains(#[trigger] front[q]) by {
                    assert(front[q] == cols[q]);
                }
            }
            if misses_all(front, s.columns_of(x)) && !s.columns_of(x).contains(c) {
                assert forall|q: int| 0 <= q < cols.len() implies !s.columns_of(x).contains(#[trigger] cols[q]) by {
                    if q < front.len() {
                        assert(front[q] == cols[q]);
                    }
                }
            }
        }
        assert forall|x: Cell| s.is_content(x) implies #[trigger] t.columns_of(x) == s.columns_of(x) by {
            assert(mid.is_content(x));
            assert(mid.columns_of(x) == s.columns_of(x));
        }
        assert forall|x: Cell| s.is_content(x) implies #[trigger] t.leads(x) == s.leads(x) by {
            assert(mid.is_content(x));
            assert(mid.leads(x) == s.leads(x));
        }
    } else {
        assert forall|x: Cell| s.is_content(x) implies (#[trigger] t.is_active(x) <==> s.is_active(x) && misses_all(
            cols,
            s.columns_of(x),
        )) by {}
    }
}

/// Where two matrices have the same rows, and the rows in play in the one
/// are those in play in the other that share no column with `taken`, the
/// rows that can be chosen in the one are those of the other that share no
/// column with `taken`.
pub proof fn lemma_rows_apart(s: MatrixView, t: MatrixView, taken: Set<Cell>, n: int)
    requires
        t.sizes.len() == s.sizes.len(),
        t.headers.len() == s.headers.len(),
        s.headers.len() <= usize::MAX,
        n <= s.headers.len(),
        forall|x: Cell| s.is_content(x) ==> #[trigger] t.leads(x) == s.leads(x),
        forall|x: Cell| s.is_content(x) ==> #[trigger] t.columns_of(x) == s.columns_of(x),
        forall|x: Cell|
            s.is_content(x) ==> (#[trigger] t.is_active(x) <==> s.is_active(x) && s.columns_of(x).disjoint(taken)),
    ensures
        t.rows_below(n) == apart(s.rows_below(n), taken),
    decreases n,
{
    if n > s.sizes.len() {
        lemma_rows_apart(s, t, taken, n - 1);
        let x = Cell((n - 1) as usize);
        assert(s.is_content(x));
        assert(t.leads(x) == s.leads(x));
        assert(t.columns_of(x) == s.columns_of(x));
        let front = s.rows_below(n - 1);
        if s.leads(x) && s.is_active(x) {
            let rows = front.push(s.columns_of(x));
            assert(rows.drop_last() =~= front);
            assert(rows.last() == s.columns_of(x));
        }
    }
}

/// The rows with more first cells to look at are the rows with fewer, and
/// some more behind them.
pub proof fn lemma_rows_below_grows(s: MatrixView, a: int, b: int)
    requires
        a <= b,
    ensures
        s.rows_below(a).len() <= s.rows_below(b).len(),
        forall|j: int| 0 <= j < s.rows_below(a).len() ==> s.rows_below(b)[j] == s.rows_below(a)[j],
    decreases b - a,
{
    if a < b {
        lemma_rows_below_grows(s, a, b - 1);
    }
}

/// Each row that can be chosen is the row of a cell that leads it and is in
/// play, and stands where the rows with earlier first cells end.
pub proof fn lemma_row_source(s: MatrixView, n: int, j: int) -> (x: Cell)
    requires
        s.headers.len() <= usize::MAX,
        n <= s.headers.len(),
        0 <= j < s.rows_below(n).len(),
    ensures
        s.is_content(x),
        x.0 < n,
        s.leads(x),
        s.is_active(x),
        s.rows_below(n)[j] == s.columns_of(x),
        s.rows_below(x.0 as int).len() == j,
    decreases n,
{
    let last = Cell((n - 1) as usize);
    if s.leads(last) && s.is_active(last) && j == s.rows_below(n - 1).len() {
        last
    } else {
        lemma_row_source(s, n - 1, j)
    }
}

/// The row of a cell that leads it and is in play stands among the rows
/// that can be chosen, where the rows with earlier first cells end.
pub proof fn lemma_row_place(s: MatrixView, x: Cell)
    requires
        s.headers.len() <= usize::MAX,
        s.is_content(x),
        s.leads(x),
        s.is_active(x),
    ensures
        s.rows_below(x.0 as int).len() < s.open_rows().len(),
        s.open_rows()[s.rows_below(x.0 as int).len() as int] == s.columns_of(x),
{
    let n = x.0 + 1;
    assert(Cell((n - 1) as usize) == x);
    assert(s.rows_below(n) == s.rows_below(x.0 as int).push(s.columns_of(x)));
    lemma_rows_below_grows(s, n, s.headers.len() as int);
}

/// The cell with the least index among `x` and `others`.
proof fn lemma_least_cell(x: Cell, others: Seq<Cell>) -> (least: Cell)
    ensures
        least == x || others.contains(least),
        least.0 <= x.0,
        forall|q: int| 0 <= q < others.len() ==> least.0 <= (#[trigger] others[q]).0,
    decreases others.len(),
{
    if others.len() == 0 {
        x
    } else {
        let front = others.drop_last();
        let best = lemma_least_cell(x, front);
        assert forall|q: int| 0 <= q < front.len() implies best.0 <= (#[trigger] others[q]).0 by {
            assert(front[q] == others[q]);
        }
        if front.contains(best) {
            let w = choose|w: int| 0 <= w < front.len() && front[w] == best;
            assert(others[w] == best);
        }
        if others.last().0 < best.0 {
            assert(others[others.len() - 1] == others.last());
            others.last()
        } else {
            best
        }
    }
}

/// Every row has a cell that leads it.
#[verifier::rlimit(50)]
pub proof fn lemma_leader(s: MatrixView, x: Cell) -> (leader: Cell)
    requires
        s.wf(),
        s.is_content(x),
    ensures
        s.is_content(leader),
        s.leads(leader),
        leader == x || s.row_cells(x).contains(leader),
        leader == x || s.row_cells(leader).contains(x),
        s.columns_of(leader) == s.columns_of(x),
        s.is_active(x) ==> s.is_active(leader),
{
    let row = s.row_cells(x);
    assert(s.row_ok(x));
    let least = lemma_least_cell(x, row);
    if least == x {
        assert forall|q: int| 0 <= q < row.len() implies (#[trigger] row[q]).0 > x.0 by {
            assert(row[q] != x);
        }
    } else {
        lemma_row_mates(s, x, least);
        lemma_same_columns(s, x, least);
        let mates = s.row_cells(least);
        assert forall|q: int| 0 <= q < mates.len() implies (#[trigger] mates[q]).0 > least.0 by {
            let z = mates[q];
            assert(mates.contains(z));
            assert(s.row_ok(least));
            assert(z != least);
            if z != x {
                assert(row.contains(z));
                let w = choose|w: int| 0 <= w < row.len() && row[w] == z;
                assert(least.0 <= row[w].0);
            }
        }
        if s.is_active(x) {
            assert(s.row_active(x));
            let w = choose|w: int| 0 <= w < row.len() && row[w] == least;
            assert(s.is_active(row[w]));
        }
    }
    least
}

/// A row has one cell only that leads it.
pub proof fn lemma_leader_unique(s: MatrixView, a: Cell, b: Cell)
    requires
        s.leads(a),
        s.leads(b),
        a == b || (s.row_cells(a).contains(b) && s.row_cells(b).contains(a)),
    ensures
        a == b,
{
    if a != b {
        let p = choose|p: int| 0 <= p < s.row_cells(a).len() && s.row_cells(a)[p] == b;
        let q = choose|q: int| 0 <= q < s.row_cells(b).len() && s.row_cells(b)[q] == a;
        assert(s.row_cells(a)[p].0 > a.0);
        assert(s.row_cells(b)[q].0 > b.0);
    }
}

/// A row in play stands in columns that are not covered, and in one at
/// least.
pub proof fn lemma_row_fits(s: MatrixView, x: Cell)
    requires
        s.wf(),
        s.is_content(x),
        s.is_active(x),
    ensures
        s.columns_of(x).subset_of(s.open_columns()),
        s.columns_of(x).contains(s.headers[x.0 as int]),
{
    assert(s.row_active(x));
    assert forall|h: Cell| s.columns_of(x).contains(h) implies s.open_columns().contains(h) by {
        if h != s.headers[x.0 as int] {
            let q = choose|q: int| 0 <= q < s.row_columns(x).len() && s.row_columns(x)[q] == h;
            assert(s.is_active(s.row_cells(x)[q]));
        }
    }
}

} // verus!
