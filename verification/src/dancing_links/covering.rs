use vstd::prelude::*;
use crate::dancing_links::cells::Cell;
use crate::dancing_links::links::{Link, is_ring, relinked, unlinked};
use crate::dancing_links::matrix::{MatrixView, spec_head};
use crate::dancing_links::rings::{lemma_ring_frame, lemma_rotate, lemma_unlink_member, rotated};

verus! {

/// The table after each cell of `js` was unlinked, first to last.
pub open spec fn unlinked_all(links: Seq<Link>, js: Seq<Cell>) -> Seq<Link>
    decreases js.len(),
{
    if js.len() == 0 {
        links
    } else {
        unlinked(unlinked_all(links, js.drop_last()), js.last())
    }
}

/// The table after each cell of `js` was relinked, last to first.
pub open spec fn relinked_all(links: Seq<Link>, js: Seq<Cell>) -> Seq<Link>
    decreases js.len(),
{
    if js.len() == 0 {
        links
    } else {
        relinked_all(relinked(links, js.last()), js.drop_last())
    }
}

/// The column sizes after one was taken off for each cell of `js`.
pub open spec fn shrunk(sizes: Seq<usize>, headers: Seq<Cell>, js: Seq<Cell>) -> Seq<usize>
    decreases js.len(),
{
    if js.len() == 0 {
        sizes
    } else {
        let rest = shrunk(sizes, headers, js.drop_last());
        let h = headers[js.last().0 as int].0 as int;
        rest.update(h, (rest[h] - 1) as usize)
    }
}

/// The column sizes after one was added for each cell of `js`.
pub open spec fn regrown(sizes: Seq<usize>, headers: Seq<Cell>, js: Seq<Cell>) -> Seq<usize>
    decreases js.len(),
{
    if js.len() == 0 {
        sizes
    } else {
        let h = headers[js.last().0 as int].0 as int;
        regrown(sizes.update(h, (sizes[h] + 1) as usize), headers, js.drop_last())
    }
}

/// No cell of `js` stands in the column of header `g`.
pub open spec fn misses(headers: Seq<Cell>, js: Seq<Cell>, g: Cell) -> bool {
    forall|k: int| 0 <= k < js.len() ==> headers[(#[trigger] js[k]).0 as int] != g
}

impl MatrixView {
    /// The other cells of the rows of `cells`, row after row.
    pub open spec fn rows_of(self, cells: Seq<Cell>) -> Seq<Cell>
        decreases cells.len(),
    {
        if cells.len() == 0 {
            Seq::empty()
        } else {
            self.rows_of(cells.drop_last()) + self.row_cells(cells.last())
        }
    }

    /// The cells that covering column `c` takes out of their columns, in the
    /// order in which they leave: for each cell of the column, top to bottom,
    /// the other cells of its row.
    pub open spec fn cover_trace(self, c: Cell) -> Seq<Cell> {
        self.rows_of(self.column_cells(c))
    }

    /// The matrix after each cell of `js` was taken out of its column.
    pub open spec fn retracted(self, js: Seq<Cell>) -> MatrixView {
        MatrixView {
            hlinks: unlinked_all(self.hlinks, js),
            vlinks: self.vlinks,
            headers: self.headers,
            sizes: shrunk(self.sizes, self.headers, js),
        }
    }

    /// The matrix after column `c` was covered: its header has left the
    /// header list, and every row with a cell in the column has left all its
    /// other columns.
    pub open spec fn cover(self, c: Cell) -> MatrixView {
        MatrixView {
            hlinks: unlinked_all(self.hlinks, self.cover_trace(c)),
            vlinks: unlinked(self.vlinks, c),
            headers: self.headers,
            sizes: shrunk(self.sizes, self.headers, self.cover_trace(c)),
        }
    }

    /// The matrix after column `c` was uncovered: the rows with a cell in it
    /// are back in their other columns, last out first in, and the header is
    /// back in the header list.
    pub open spec fn uncover(self, c: Cell) -> MatrixView {
        MatrixView {
            hlinks: relinked_all(self.hlinks, self.cover_trace(c)),
            vlinks: relinked(self.vlinks, c),
            headers: self.headers,
            sizes: regrown(self.sizes, self.headers, self.cover_trace(c)),
        }
    }

    /// Some row through one of `cells` holds `y` as another of its cells.
    pub open spec fn meets(self, cells: Seq<Cell>, y: Cell) -> bool {
        exists|t: int| 0 <= t < cells.len() && self.row_cells(#[trigger] cells[t]).contains(y)
    }

    /// The number of cells in the rows through the first `k` of `cells`,
    /// those cells themselves not counted.
    pub open spec fn offset(self, cells: Seq<Cell>, k: int) -> int {
        self.rows_of(cells.take(k)).len() as int
    }

    /// The tables fit each other and every column list is in order.
    pub open spec fn columns_ok(self) -> bool {
        &&& self.shape_ok()
        &&& forall|h: Cell| self.is_header(h) ==> #[trigger] self.column_ok(h)
    }

    /// `self` is what covering column `c` made of some well-formed matrix in
    /// which the column was not covered.
    pub open spec fn covered_at(self, c: Cell) -> bool {
        exists|before: MatrixView| #[trigger] before.cover(c) == self && before.wf() && before.is_live(c)
    }
}

/// Taking one cell that is in play out of its column shortens that column by
/// the cell and leaves the other columns alone; relinking the cell undoes it.
#[verifier::rlimit(50)]
pub proof fn lemma_retract_one(s: MatrixView, t: MatrixView, j: Cell)
    requires
        s.columns_ok(),
        s.is_content(j),
        s.in_play(j),
        t.hlinks == unlinked(s.hlinks, j),
        t.vlinks == s.vlinks,
        t.headers == s.headers,
        t.sizes == s.sizes.update(
            s.headers[j.0 as int].0 as int,
            (s.sizes[s.headers[j.0 as int].0 as int] - 1) as usize,
        ),
    ensures
        s.sizes[s.headers[j.0 as int].0 as int] >= 1,
        t.columns_ok(),
        forall|g: Cell|
            s.is_header(g) && g != s.headers[j.0 as int] ==> #[trigger] t.column_cells(g) == s.column_cells(g),
        forall|x: Cell| s.is_content(x) ==> #[trigger] t.in_play(x) == (s.in_play(x) && x != j),
        relinked(t.hlinks, j) == s.hlinks,
        t.sizes.update(
            s.headers[j.0 as int].0 as int,
            (t.sizes[s.headers[j.0 as int].0 as int] + 1) as usize,
        ) == s.sizes,
        t.hlinks[j.0 as int] == s.hlinks[j.0 as int],
        s.hlinks[j.0 as int].prev.0 < s.hlinks.len(),
        s.hlinks[j.0 as int].next.0 < s.hlinks.len(),
{
    let h = s.headers[j.0 as int];
    assert(s.is_header(h));
    assert(s.column_ok(h));
    let r = s.column_cells(h);
    let p = choose|p: int| 0 <= p < r.len() && r[p] == j;
    lemma_unlink_member(s.hlinks, h, r, p);
    let a = s.hlinks[j.0 as int].prev;
    let b = s.hlinks[j.0 as int].next;
    assert(a == h || (s.is_content(a) && s.headers[a.0 as int] == h)) by {
        if p > 0 {
            assert(s.is_content(r[p - 1]));
        }
    }
    assert(b == h || (s.is_content(b) && s.headers[b.0 as int] == h)) by {
        if p + 1 < r.len() {
            assert(s.is_content(r[p + 1]));
        }
    }
    let short = r.remove(p);
    assert(t.column_cells(h) == short);
    assert forall|x: Cell| short.contains(x) <==> (r.contains(x) && x != j) by {
        if short.contains(x) {
            let k = choose|k: int| 0 <= k < short.len() && short[k] == x;
            let kk = if k < p { k } else { k + 1 };
            assert(r[kk] == x);
        }
        if r.contains(x) && x != j {
            let k = choose|k: int| 0 <= k < r.len() && r[k] == x;
            let kk = if k < p { k } else { k - 1 };
            assert(short[kk] == x);
        }
    }
    assert forall|g: Cell|
        #![trigger t.column_ok(g)]
        #![trigger t.column_cells(g)]
        s.is_header(g) implies t.column_ok(g) && (g != h ==> t.column_cells(g) == s.column_cells(g)) by {
        assert(s.column_ok(g));
        if g == h {
            assert forall|k: int| 0 <= k < short.len() implies {
                &&& t.is_content(#[trigger] short[k])
                &&& t.headers[short[k].0 as int] == g
            } by {
                let kk = if k < p { k } else { k + 1 };
                assert(short[k] == r[kk]);
                assert(s.is_content(r[kk]));
            }
        } else {
            let other = s.column_cells(g);
            assert forall|k: int| 0 <= k < other.len() implies t.hlinks[(#[trigger] other[k]).0 as int]
                == s.hlinks[other[k].0 as int] by {
                assert(s.is_content(other[k]));
            }
            lemma_ring_frame(s.hlinks, t.hlinks, g, other);
            assert forall|k: int| 0 <= k < other.len() implies {
                &&& t.is_content(#[trigger] other[k])
                &&& t.headers[other[k].0 as int] == g
            } by {
                assert(s.is_content(other[k]));
            }
        }
    }
    assert forall|x: Cell| s.is_content(x) implies #[trigger] t.in_play(x) == (s.in_play(x) && x != j) by {
        let g = s.headers[x.0 as int];
        assert(s.is_header(g));
        assert(t.column_ok(g));
    }
    assert(t.sizes.update(h.0 as int, (t.sizes[h.0 as int] + 1) as usize) =~= s.sizes);
}

/// Taking cells that are in play out of their columns one after the other
/// keeps every column list in order, removes exactly those cells from play,
/// and is undone by relinking them in the opposite order.
#[verifier::rlimit(50)]
pub proof fn lemma_retract_all(s: MatrixView, js: Seq<Cell>)
    requires
        s.columns_ok(),
        js.no_duplicates(),
        forall|k: int| 0 <= k < js.len() ==> s.is_content(#[trigger] js[k]) && s.in_play(js[k]),
    ensures
        s.retracted(js).columns_ok(),
        s.retracted(js).sizes.len() == s.sizes.len(),
        forall|x: Cell|
            s.is_content(x) ==> #[trigger] s.retracted(js).in_play(x) == (s.in_play(x) && !js.contains(x)),
        forall|g: Cell|
            s.is_header(g) && misses(s.headers, js, g) ==> #[trigger] s.retracted(js).column_cells(g)
                == s.column_cells(g),
        relinked_all(s.retracted(js).hlinks, js) == s.hlinks,
        regrown(s.retracted(js).sizes, s.headers, js) == s.sizes,
    decreases js.len(),
{
    let t = s.retracted(js);
    if js.len() == 0 {
        assert forall|x: Cell| s.is_content(x) implies #[trigger] t.in_play(x) == (s.in_play(x) && !js.contains(
            x,
        )) by {}
    } else {
        let front = js.drop_last();
        let j = js.last();
        let mid = s.retracted(front);
        lemma_retract_all(s, front);
        assert(!front.contains(j)) by {
            if front.contains(j) {
                let k = choose|k: int| 0 <= k < front.len() && front[k] == j;
                assert(js[k] == js[js.len() - 1]);
            }
        }
        assert(mid.in_play(j));
        lemma_retract_one(mid, t, j);
        assert forall|x: Cell| s.is_content(x) implies #[trigger] t.in_play(x) == (s.in_play(x) && !js.contains(
            x,
        )) by {
            assert(mid.in_play(x) == (s.in_play(x) && !front.contains(x)));
            if js.contains(x) {
                let k = choose|k: int| 0 <= k < js.len() && js[k] == x;
                if k < front.len() {
                    assert(front[k] == x);
                }
            }
            if front.contains(x) {
                let k = choose|k: int| 0 <= k < front.len() && front[k] == x;
                assert(js[k] == x);
            }
        }
        assert forall|g: Cell| s.is_header(g) && misses(s.headers, js, g) implies #[trigger] t.column_cells(g)
            == s.column_cells(g) by {
            assert(misses(s.headers, front, g)) by {
                assert forall|k: int| 0 <= k < front.len() implies s.headers[(#[trigger] front[k]).0 as int]
                    != g by {
                    assert(front[k] == js[k]);
                }
            }
            assert(s.headers[js[js.len() - 1].0 as int] != g);
            assert(mid.column_cells(g) == s.column_cells(g));
        }
    }
}

/// Seen from a cell of its row, the row of `x` is `x` with the rest of the
/// row.
#[verifier::rlimit(50)]
pub proof fn lemma_row_mates(s: MatrixView, x: Cell, y: Cell)
    requires
        s.is_content(x),
        s.row_ok(x),
        s.row_cells(x).contains(y),
    ensures
        s.is_content(y),
        s.row_cells(y).contains(x),
        forall|z: Cell| s.row_cells(y).contains(z) <==> (z == x || (s.row_cells(x).contains(z) && z != y)),
{
    let r = s.row_cells(x);
    let p = choose|p: int| 0 <= p < r.len() && r[p] == y;
    let n = r.len() as int;
    lemma_rotate(s.vlinks, x, r, p);
    let t = rotated(x, r, p);
    assert(t.len() == n);
    assert(t[n - p - 1] == x);
    assert forall|z: Cell| t.contains(z) <==> (z == x || (r.contains(z) && z != y)) by {
        if t.contains(z) {
            let k = choose|k: int| 0 <= k < t.len() && t[k] == z;
            if k < n - p - 1 {
                assert(t[k] == r[k + p + 1]);
            } else if k > n - p - 1 {
                assert(t[k] == r[k - (n - p)]);
            }
        }
        if r.contains(z) && z != y {
            let k = choose|k: int| 0 <= k < r.len() && r[k] == z;
            if k > p {
                assert(t[k - p - 1] == z);
            } else {
                assert(t[k + n - p] == z);
            }
        }
    }
}

/// The rows through the first `k + 1` cells are those through the first `k`,
/// then the row of the next cell.
pub proof fn lemma_rows_of_take(s: MatrixView, cells: Seq<Cell>, k: int)
    requires
        0 <= k < cells.len(),
    ensures
        s.rows_of(cells.take(k + 1)) == s.rows_of(cells.take(k)) + s.row_cells(cells[k]),
        s.offset(cells, k + 1) == s.offset(cells, k) + s.row_cells(cells[k]).len(),
{
    assert(cells.take(k + 1).drop_last() =~= cells.take(k));
}

/// The rows through the first `k` cells come first among the rows through
/// all of them.
pub proof fn lemma_rows_of_prefix(s: MatrixView, cells: Seq<Cell>, k: int)
    requires
        0 <= k <= cells.len(),
    ensures
        0 <= s.offset(cells, k) <= s.rows_of(cells).len(),
        s.rows_of(cells.take(k)) == s.rows_of(cells).take(s.offset(cells, k)),
    decreases cells.len() - k,
{
    if k == cells.len() {
        assert(cells.take(k) =~= cells);
        assert(s.rows_of(cells).take(s.rows_of(cells).len() as int) =~= s.rows_of(cells));
    } else {
        lemma_rows_of_prefix(s, cells, k + 1);
        lemma_rows_of_take(s, cells, k);
        let all = s.rows_of(cells);
        let longer = s.rows_of(cells.take(k + 1));
        let shorter = s.rows_of(cells.take(k));
        assert(shorter =~= longer.take(shorter.len() as int));
        assert(longer.take(shorter.len() as int) =~= all.take(shorter.len() as int));
    }
}

/// Where the `q`-th other cell of the row of the `k`-th cell stands among the
/// rows through all of `cells`.
pub proof fn lemma_rows_of_index(s: MatrixView, cells: Seq<Cell>, k: int, q: int)
    requires
        0 <= k < cells.len(),
        0 <= q < s.row_cells(cells[k]).len(),
    ensures
        0 <= s.offset(cells, k) + q < s.rows_of(cells).len(),
        s.rows_of(cells)[s.offset(cells, k) + q] == s.row_cells(cells[k])[q],
{
    lemma_rows_of_prefix(s, cells, k + 1);
    lemma_rows_of_take(s, cells, k);
    let all = s.rows_of(cells);
    let longer = s.rows_of(cells.take(k + 1));
    assert(longer[s.offset(cells, k) + q] == s.row_cells(cells[k])[q]);
    assert(all.take(s.offset(cells, k + 1))[s.offset(cells, k) + q] == all[s.offset(cells, k) + q]);
}

/// The cells that leave when column `c` is covered, as far as the first `n`
/// rows of the column go: content cells in play in other, uncovered columns,
/// each named once, and just those that share a row with one of the first
/// `n` cells of the column.
#[verifier::rlimit(50)]
pub proof fn lemma_trace_prefix(s: MatrixView, c: Cell, n: int)
    requires
        s.wf(),
        s.is_live(c),
        0 <= n <= s.column_cells(c).len(),
    ensures
        s.is_header(c),
        s.rows_of(s.column_cells(c).take(n)).no_duplicates(),
        forall|k: int|
            0 <= k < s.rows_of(s.column_cells(c).take(n)).len() ==> {
                let y = #[trigger] s.rows_of(s.column_cells(c).take(n))[k];
                &&& s.is_content(y)
                &&& s.is_active(y)
                &&& s.headers[y.0 as int] != c
            },
        forall|y: Cell|
            s.rows_of(s.column_cells(c).take(n)).contains(y) <==> s.meets(s.column_cells(c).take(n), y),
    decreases n,
{
    let live = s.live_columns();
    let w = choose|w: int| 0 <= w < live.len() && live[w] == c;
    assert(s.is_header(live[w]));
    assert(s.column_ok(c));
    let col = s.column_cells(c);
    let cells = col.take(n);
    let pre = s.rows_of(cells);
    if n == 0 {
        assert forall|y: Cell| pre.contains(y) <==> s.meets(cells, y) by {}
    } else {
        lemma_trace_prefix(s, c, n - 1);
        lemma_rows_of_take(s, col, n - 1);
        let front_cells = col.take(n - 1);
        let front = s.rows_of(front_cells);
        let i = col[n - 1];
        let row = s.row_cells(i);
        assert(pre == front + row);
        assert(s.is_content(i) && s.headers[i.0 as int] == c);
        assert(s.in_play(i));
        assert(s.is_active(i));
        assert(s.row_active(i));
        assert(s.row_ok(i));
        assert forall|k: int| 0 <= k < pre.len() implies {
            let y = #[trigger] pre[k];
            &&& s.is_content(y)
            &&& s.is_active(y)
            &&& s.headers[y.0 as int] != c
        } by {
            if k < front.len() {
                assert(pre[k] == front[k]);
            } else {
                assert(pre[k] == row[k - front.len()]);
                assert(s.is_active(row[k - front.len()]));
                assert(s.is_content(row[k - front.len()]));
            }
        }
        assert forall|y: Cell| pre.contains(y) <==> s.meets(cells, y) by {
            if pre.contains(y) {
                let k = choose|k: int| 0 <= k < pre.len() && pre[k] == y;
                if k < front.len() {
                    assert(front[k] == y);
                    assert(s.meets(front_cells, y));
                    let t = choose|t: int| 0 <= t < front_cells.len() && s.row_cells(#[trigger] front_cells[t]).contains(y);
                    assert(cells[t] == front_cells[t]);
                } else {
                    assert(row[k - front.len()] == y);
                    assert(cells[n - 1] == i);
                }
            }
            if s.meets(cells, y) {
                let t = choose|t: int| 0 <= t < cells.len() && s.row_cells(#[trigger] cells[t]).contains(y);
                if t < n - 1 {
                    assert(front_cells[t] == cells[t]);
                    assert(s.meets(front_cells, y));
                    let k = choose|k: int| 0 <= k < front.len() && front[k] == y;
                    assert(pre[k] == y);
                } else {
                    let k = choose|k: int| 0 <= k < row.len() && row[k] == y;
                    assert(pre[front.len() + k] == y);
                }
            }
        }
        assert(pre.no_duplicates()) by {
            assert forall|a: int, b: int| 0 <= a < pre.len() && 0 <= b < pre.len() && a != b implies pre[a]
                != pre[b] by {
                if a < front.len() && b < front.len() {
                    assert(pre[a] == front[a] && pre[b] == front[b]);
                } else if a >= front.len() && b >= front.len() {
                    assert(pre[a] == row[a - front.len()] && pre[b] == row[b - front.len()]);
                } else {
                    let (lo, hi) = if a < b { (a, b) } else { (b, a) };
                    let y = pre[lo];
                    assert(front[lo] == y);
                    if pre[hi] == y {
                        assert(row[hi - front.len()] == y);
                        assert(front.contains(y));
                        assert(s.meets(front_cells, y));
                        let t = choose|t: int| 0 <= t < front_cells.len() && s.row_cells(#[trigger] front_cells[t]).contains(y);
                        let other = front_cells[t];
                        assert(other == col[t]);
                        assert(s.is_content(col[t]) && s.headers[col[t].0 as int] == c);
                        assert(row.contains(y));
                        lemma_row_mates(s, i, y);
                        assert(s.row_ok(other));
                        lemma_row_mates(s, other, y);
                        assert(s.row_cells(y).contains(other));
                        assert(other == i || row.contains(other));
                        if row.contains(other) {
                            let k = choose|k: int| 0 <= k < row.len() && row[k] == other;
                            assert(s.headers[row[k].0 as int] != s.headers[i.0 as int]);
                        }
                    }
                }
            }
        }
    }
}

/// What covering column `c` does to a well-formed matrix in which the column
/// is not covered. The result is well formed; the header list has lost `c`
/// and nothing else; the column itself and all rows are as they were; the
/// cells that have left play are those that share a row with a cell of the
/// column; and uncovering `c` gives the matrix back, entry for entry.
#[verifier::rlimit(50)]
pub proof fn lemma_cover(s: MatrixView, c: Cell)
    requires
        s.wf(),
        s.is_live(c),
    ensures
        s.is_header(c),
        s.cover(c).wf(),
        s.cover(c).headers == s.headers,
        s.cover(c).sizes.len() == s.sizes.len(),
        s.cover(c).live_columns() == s.live_columns().remove(s.live_columns().index_of(c)),
        forall|h: Cell| s.cover(c).is_live(h) <==> (s.is_live(h) && h != c),
        s.cover(c).column_cells(c) == s.column_cells(c),
        forall|x: Cell| s.is_content(x) ==> #[trigger] s.cover(c).row_cells(x) == s.row_cells(x),
        forall|x: Cell|
            s.is_content(x) ==> #[trigger] s.cover(c).in_play(x) == (s.in_play(x) && !s.meets(
                s.column_cells(c),
                x,
            )),
        s.cover(c).cover_trace(c) == s.cover_trace(c),
        s.cover(c).uncover(c) == s,
        s.cover(c).covered_at(c),
{
    let t = s.cover(c);
    let col = s.column_cells(c);
    let trace = s.cover_trace(c);
    let live = s.live_columns();
    lemma_trace_prefix(s, c, col.len() as int);
    assert(col.take(col.len() as int) =~= col);
    let mid = s.retracted(trace);
    lemma_retract_all(s, trace);
    assert(misses(s.headers, trace, c));
    // the header list
    let w = live.index_of(c);
    assert(0 <= w < live.len() && live[w] == c);
    lemma_unlink_member(s.vlinks, spec_head(), live, w);
    let short = live.remove(w);
    assert(t.live_columns() == short);
    assert forall|h: Cell| short.contains(h) <==> (live.contains(h) && h != c) by {
        if short.contains(h) {
            let k = choose|k: int| 0 <= k < short.len() && short[k] == h;
            let kk = if k < w { k } else { k + 1 };
            assert(live[kk] == h);
        }
        if live.contains(h) && h != c {
            let k = choose|k: int| 0 <= k < live.len() && live[k] == h;
            let kk = if k < w { k } else { k - 1 };
            assert(short[kk] == h);
        }
    }
    assert(t.header_ring_ok()) by {
        assert forall|k: int| 0 <= k < short.len() implies t.is_header(#[trigger] short[k]) by {
            let kk = if k < w { k } else { k + 1 };
            assert(short[k] == live[kk]);
            assert(s.is_header(live[kk]));
        }
    }
    let a = s.vlinks[c.0 as int].prev;
    let b = s.vlinks[c.0 as int].next;
    assert(a.0 < s.sizes.len() && b.0 < s.sizes.len()) by {
        if w > 0 {
            assert(s.is_header(live[w - 1]));
        }
        if w + 1 < live.len() {
            assert(s.is_header(live[w + 1]));
        }
    }
    // the rows
    assert forall|x: Cell|
        #![trigger t.row_cells(x)]
        #![trigger t.row_ok(x)]
        s.is_content(x) implies t.row_cells(x) == s.row_cells(x) && t.row_ok(x) by {
        assert(s.row_ok(x));
        let row = s.row_cells(x);
        assert forall|k: int| 0 <= k < row.len() implies t.vlinks[(#[trigger] row[k]).0 as int]
            == s.vlinks[row[k].0 as int] by {
            assert(s.is_content(row[k]));
        }
        lemma_ring_frame(s.vlinks, t.vlinks, x, row);
        assert forall|k: int| 0 <= k < row.len() implies {
            &&& t.is_content(#[trigger] row[k])
            &&& t.headers[row[k].0 as int] != t.headers[x.0 as int]
        } by {
            assert(s.is_content(row[k]));
        }
    }
    // the columns
    assert(t.shape_ok());
    assert forall|h: Cell| t.is_header(h) implies #[trigger] t.column_ok(h) by {
        assert(mid.column_ok(h));
    }
    assert(t.column_cells(c) == col) by {
        assert(mid.column_cells(c) == s.column_cells(c));
    }
    assert forall|x: Cell| s.is_content(x) implies #[trigger] t.in_play(x) == (s.in_play(x) && !s.meets(col, x)) by {
        assert(mid.in_play(x) == (s.in_play(x) && !trace.contains(x)));
    }
    // rows stay whole
    assert forall|x: Cell| t.is_content(x) && t.is_active(x) implies #[trigger] t.row_active(x) by {
        lemma_cover_keeps_rows(s, c, x);
    }
    // the way back
    assert forall|k: int| 0 <= k < col.len() implies t.row_cells(#[trigger] col[k]) == s.row_cells(col[k]) by {
        assert(s.column_ok(c));
        assert(s.is_content(col[k]));
    }
    lemma_same_rows(s, t, col, col.len() as int);
    assert(t.cover_trace(c) == trace);
    assert(relinked(t.vlinks, c) == s.vlinks);
    assert(t.uncover(c).hlinks == s.hlinks);
    assert(t.uncover(c).sizes == s.sizes);
}

/// Two matrices with the same rows through the first `n` of `cells` list the
/// same cells for them.
proof fn lemma_same_rows(s: MatrixView, t: MatrixView, cells: Seq<Cell>, n: int)
    requires
        0 <= n <= cells.len(),
        forall|k: int| 0 <= k < cells.len() ==> t.row_cells(#[trigger] cells[k]) == s.row_cells(cells[k]),
    ensures
        t.rows_of(cells.take(n)) == s.rows_of(cells.take(n)),
        n == cells.len() ==> t.rows_of(cells) == s.rows_of(cells),
    decreases n,
{
    if n > 0 {
        lemma_same_rows(s, t, cells, n - 1);
        lemma_rows_of_take(s, cells, n - 1);
        lemma_rows_of_take(t, cells, n - 1);
    } else {
        assert(cells.take(0) =~= Seq::<Cell>::empty());
    }
    if n == cells.len() {
        assert(cells.take(n) =~= cells);
    }
}

/// After covering `c`, a row with one cell in play in an uncovered column
/// has all its cells in play in uncovered columns.
#[verifier::rlimit(50)]
proof fn lemma_cover_keeps_rows(s: MatrixView, c: Cell, x: Cell)
    requires
        s.wf(),
        s.is_live(c),
        s.is_content(x),
        s.in_play(x),
        !s.meets(s.column_cells(c), x),
        s.is_live(s.headers[x.0 as int]),
        s.headers[x.0 as int] != c,
        s.cover(c).row_cells(x) == s.row_cells(x),
        forall|h: Cell| s.cover(c).is_live(h) <==> (s.is_live(h) && h != c),
        forall|y: Cell|
            s.is_content(y) ==> #[trigger] s.cover(c).in_play(y) == (s.in_play(y) && !s.meets(
                s.column_cells(c),
                y,
            )),
    ensures
        s.cover(c).row_active(x),
{
    let t = s.cover(c);
    let col = s.column_cells(c);
    let row = s.row_cells(x);
    assert(s.is_active(x));
    assert(s.row_active(x));
    assert(s.row_ok(x));
    assert forall|k: int| 0 <= k < row.len() implies t.is_active(#[trigger] row[k]) by {
        let y = row[k];
        assert(s.is_active(y));
        assert(s.is_content(y));
        lemma_row_mates(s, x, y);
        if s.headers[y.0 as int] == c {
            let p = choose|p: int| 0 <= p < col.len() && col[p] == y;
            assert(s.row_cells(col[p]).contains(x));
            assert(s.meets(col, x));
        }
        if s.meets(col, y) {
            let p = choose|p: int| 0 <= p < col.len() && s.row_cells(#[trigger] col[p]).contains(y);
            let i = col[p];
            let w = choose|w: int| 0 <= w < s.live_columns().len() && s.live_columns()[w] == c;
            assert(s.is_header(s.live_columns()[w]));
            assert(s.column_ok(c));
            assert(s.is_content(i) && s.headers[i.0 as int] == c);
            assert(s.row_ok(i));
            lemma_row_mates(s, i, y);
            assert(s.row_cells(y).contains(x));
            assert(x == i || s.row_cells(i).contains(x));
            assert(s.meets(col, x));
        }
    }
}

/// While column `c` is being covered, the column itself stays as it was and
/// every column list stays in order.
#[verifier::rlimit(50)]
pub proof fn lemma_cover_at(s: MatrixView, c: Cell, t: int)
    requires
        s.wf(),
        s.is_live(c),
        0 <= t <= s.cover_trace(c).len(),
    ensures
        s.is_header(c),
        s.retracted(s.cover_trace(c).take(t)).columns_ok(),
        s.retracted(s.cover_trace(c).take(t)).sizes.len() == s.sizes.len(),
        s.retracted(s.cover_trace(c).take(t)).column_cells(c) == s.column_cells(c),
        is_ring(s.retracted(s.cover_trace(c).take(t)).hlinks, c, s.column_cells(c)),
        forall|k: int|
            0 <= k < s.column_cells(c).len() ==> s.is_content(#[trigger] s.column_cells(c)[k]) && s.row_ok(
                s.column_cells(c)[k],
            ),
{
    let col = s.column_cells(c);
    let trace = s.cover_trace(c);
    let pre = trace.take(t);
    lemma_trace_prefix(s, c, col.len() as int);
    assert(col.take(col.len() as int) =~= col);
    assert(pre.no_duplicates());
    assert forall|k: int| 0 <= k < pre.len() implies s.is_content(#[trigger] pre[k]) && s.in_play(pre[k]) by {
        assert(pre[k] == trace[k]);
    }
    lemma_retract_all(s, pre);
    assert(misses(s.headers, pre, c)) by {
        assert forall|k: int| 0 <= k < pre.len() implies s.headers[(#[trigger] pre[k]).0 as int] != c by {
            assert(pre[k] == trace[k]);
        }
    }
    assert(s.retracted(pre).column_ok(c));
    assert(s.column_ok(c));
    assert forall|k: int| 0 <= k < col.len() implies s.is_content(#[trigger] col[k]) && s.row_ok(col[k]) by {
        assert(s.is_content(col[k]));
    }
}

/// One step of covering column `c`: the `q`-th other cell of the row of the
/// `k`-th cell of the column is in play when its turn comes, and taking it
/// out leads from one stage of the cover to the next.
#[verifier::rlimit(50)]
pub proof fn lemma_cover_step(s: MatrixView, c: Cell, k: int, q: int)
    requires
        s.wf(),
        s.is_live(c),
        0 <= k < s.column_cells(c).len(),
        0 <= q < s.row_cells(s.column_cells(c)[k]).len(),
    ensures
        ({
            let col = s.column_cells(c);
            let trace = s.cover_trace(c);
            let t = s.offset(col, k) + q;
            let j = s.row_cells(col[k])[q];
            let h = s.headers[j.0 as int];
            let cur = s.retracted(trace.take(t));
            let nxt = s.retracted(trace.take(t + 1));
            &&& 0 <= t < trace.len()
            &&& trace[t] == j
            &&& s.is_content(j)
            &&& s.is_header(h)
            &&& cur.hlinks.len() == s.hlinks.len()
            &&& cur.sizes.len() == s.sizes.len()
            &&& cur.hlinks[j.0 as int].prev.0 < cur.hlinks.len()
            &&& cur.hlinks[j.0 as int].next.0 < cur.hlinks.len()
            &&& cur.sizes[h.0 as int] >= 1
            &&& nxt.hlinks == unlinked(cur.hlinks, j)
            &&& nxt.sizes == cur.sizes.update(h.0 as int, (cur.sizes[h.0 as int] - 1) as usize)
            &&& relinked(nxt.hlinks, j) == cur.hlinks
            &&& nxt.sizes.update(h.0 as int, (nxt.sizes[h.0 as int] + 1) as usize) == cur.sizes
            &&& nxt.hlinks[j.0 as int] == cur.hlinks[j.0 as int]
        }),
{
    let col = s.column_cells(c);
    let trace = s.cover_trace(c);
    let t = s.offset(col, k) + q;
    let j = s.row_cells(col[k])[q];
    lemma_rows_of_index(s, col, k, q);
    lemma_trace_prefix(s, c, col.len() as int);
    assert(col.take(col.len() as int) =~= col);
    let pre = trace.take(t);
    let more = trace.take(t + 1);
    assert(more.drop_last() =~= pre);
    assert(more.last() == j);
    assert(pre.no_duplicates());
    assert forall|k: int| 0 <= k < pre.len() implies s.is_content(#[trigger] pre[k]) && s.in_play(pre[k]) by {
        assert(pre[k] == trace[k]);
    }
    lemma_retract_all(s, pre);
    let cur = s.retracted(pre);
    let nxt = s.retracted(more);
    assert(s.is_content(trace[t]) && s.is_active(trace[t]));
    assert(!pre.contains(j)) by {
        if pre.contains(j) {
            let w = choose|w: int| 0 <= w < pre.len() && pre[w] == j;
            assert(trace[w] == trace[t]);
        }
    }
    assert(cur.in_play(j));
    lemma_retract_one(cur, nxt, j);
}

} // verus!
