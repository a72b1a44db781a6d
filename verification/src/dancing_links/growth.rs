use vstd::prelude::*;
use crate::dancing_links::cells::Cell;
use crate::dancing_links::links::{Link, is_ring, lemma_ring_unique, ring, spliced};
use crate::dancing_links::matrix::{MatrixView, around, fresh, lemma_picked, picked, spec_head};
use crate::dancing_links::rings::{lemma_ring_frame, lemma_rotate, lemma_splice_last, rotated};

verus! {

/// One step of appending a row: a cell for column `c` goes to the end of that
/// column and behind the cells that the row has so far.
#[verifier::rlimit(50)]
pub proof fn lemma_append_cell(
    base: MatrixView,
    before: MatrixView,
    after: MatrixView,
    cols: Seq<Cell>,
    c: Cell,
    cell: Cell,
)
    requires
        base.wf(),
        before.shape_ok(),
        forall|h: Cell| before.is_header(h) ==> #[trigger] before.column_ok(h),
        before.growing(base, cols),
        cols.no_duplicates(),
        forall|u: int| 0 <= u < cols.len() ==> base.is_header(#[trigger] cols[u]),
        base.is_header(c),
        !cols.contains(c),
        cell.0 == before.headers.len(),
        before.headers.len() < usize::MAX,
        after.sizes == before.sizes.update(c.0 as int, (before.sizes[c.0 as int] + 1) as usize),
        after.headers == before.headers.push(c),
        after.hlinks == spliced(
            before.hlinks.push(Link { prev: cell, next: cell }),
            before.hlinks[c.0 as int].prev,
            cell,
        ),
        after.vlinks == (if cols.len() == 0 {
            before.vlinks.push(Link { prev: cell, next: cell })
        } else {
            spliced(
                before.vlinks.push(Link { prev: cell, next: cell }),
                Cell((base.headers.len() + cols.len() - 1) as usize),
                cell,
            )
        }),
    ensures
        after.shape_ok(),
        forall|h: Cell| after.is_header(h) ==> #[trigger] after.column_ok(h),
        after.growing(base, cols.push(c)),
{
    let n0 = base.headers.len() as int;
    let m = cols.len() as int;
    let n = before.headers.len() as int;
    assert(n == n0 + m);
    let own = Link { prev: cell, next: cell };
    let hl_mid = before.hlinks.push(own);
    let vl_mid = before.vlinks.push(own);
    let col = before.column_cells(c);
    assert(before.column_ok(c));
    assert(col == base.column_cells(c));
    lemma_ring_frame(before.hlinks, hl_mid, c, col);
    assert(!col.contains(cell)) by {
        if col.contains(cell) {
            let k = choose|k: int| 0 <= k < col.len() && col[k] == cell;
            assert(before.is_content(col[k]));
        }
    }
    lemma_splice_last(hl_mid, c, col, cell);
    let a = hl_mid[c.0 as int].prev;
    assert(a == before.hlinks[c.0 as int].prev);
    assert(after.column_cells(c) == col.push(cell));
    assert(a == c || (before.is_content(a) && before.headers[a.0 as int] == c)) by {
        if col.len() > 0 {
            assert(before.is_content(col[col.len() - 1]));
        }
    }
    assert(after.shape_ok());
    assert forall|h: Cell| after.is_header(h) implies #[trigger] after.column_ok(h) && (h != c
        ==> after.column_cells(h) == before.column_cells(h)) by {
        assert(before.column_ok(h));
        if h == c {
            let grown = col.push(cell);
            assert forall|k: int| 0 <= k < grown.len() implies {
                &&& after.is_content(#[trigger] grown[k])
                &&& after.headers[grown[k].0 as int] == h
            } by {
                if k < col.len() {
                    assert(before.is_content(col[k]));
                }
            }
        } else {
            let other = before.column_cells(h);
            assert forall|k: int| 0 <= k < other.len() implies after.hlinks[(#[trigger] other[k]).0 as int]
                == before.hlinks[other[k].0 as int] by {
                assert(before.is_content(other[k]));
                assert(hl_mid[other[k].0 as int] == before.hlinks[other[k].0 as int]);
            }
            assert(after.hlinks[h.0 as int] == hl_mid[h.0 as int]);
            lemma_ring_frame(before.hlinks, after.hlinks, h, other);
            assert forall|k: int| 0 <= k < other.len() implies {
                &&& after.is_content(#[trigger] other[k])
                &&& after.headers[other[k].0 as int] == h
            } by {
                assert(before.is_content(other[k]));
            }
        }
    }
    let more = cols.push(c);
    assert(after.headers =~= base.headers + more);
    assert forall|u: int| 0 <= u < more.len() implies after.column_cells(#[trigger] more[u])
        == base.column_cells(more[u]).push(Cell((n0 + u) as usize)) by {
        if u < m {
            assert(more[u] == cols[u]);
            assert(cols.contains(cols[u]));
            assert(after.column_ok(cols[u]));
            assert(before.column_ok(cols[u]));
            assert(after.column_cells(cols[u]) == before.column_cells(cols[u]));
        }
    }
    assert forall|h: Cell| base.is_header(h) && !more.contains(h) implies #[trigger] after.column_cells(h)
        == base.column_cells(h) by {
        assert(more[m] == c);
        assert(h != c);
        assert(!cols.contains(h)) by {
            if cols.contains(h) {
                let k = choose|k: int| 0 <= k < cols.len() && cols[k] == h;
                assert(more[k] == h);
            }
        }
        assert(after.column_ok(h));
        assert(before.column_ok(h));
    }
    let f = Cell(n0 as usize);
    if m == 0 {
        assert(after.vlinks == vl_mid);
        assert(f == cell);
        assert(is_ring(after.vlinks, f, fresh(n0 + 1, 0)));
    } else {
        let r = fresh(n0 + 1, m - 1);
        lemma_ring_frame(before.vlinks, vl_mid, f, r);
        assert(!r.contains(cell));
        assert(vl_mid[f.0 as int].prev == Cell((n0 + m - 1) as usize)) by {
            if r.len() > 0 {
                assert(r[r.len() - 1] == Cell((n0 + m - 1) as usize));
            }
        }
        lemma_splice_last(vl_mid, f, r, cell);
        assert(r.push(cell) =~= fresh(n0 + 1, m));
    }
    assert(after.sizes[0] == base.sizes[0]);
    assert forall|x: int| 0 <= x < n0 && !base.rewritten(more, x) implies #[trigger] after.hlinks[x]
        == base.hlinks[x] by {
        assert(more[m] == c);
        assert(!base.rewritten(cols, x)) by {
            if base.rewritten(cols, x) {
                let u = choose|u: int|
                    0 <= u < cols.len() && ((#[trigger] cols[u]).0 == x || base.hlinks[cols[u].0 as int].prev.0 == x);
                assert(more[u] == cols[u]);
            }
        }
        assert(before.hlinks[x] == base.hlinks[x]);
        assert(x != c.0);
        assert(base.hlinks[c.0 as int].prev.0 != x);
        assert(before.hlinks[c.0 as int] == base.hlinks[c.0 as int]) by {
            lemma_untouched_header(base, cols, c);
        }
        assert(hl_mid[x] == before.hlinks[x]);
    }
    assert(after.growing(base, more));
}

/// The entry of a column that was not picked is not one that is rewritten.
proof fn lemma_untouched_header(base: MatrixView, cols: Seq<Cell>, c: Cell)
    requires
        base.wf(),
        base.is_header(c),
        !cols.contains(c),
        forall|u: int| 0 <= u < cols.len() ==> base.is_header(#[trigger] cols[u]),
    ensures
        !base.rewritten(cols, c.0 as int),
{
    if base.rewritten(cols, c.0 as int) {
        let u = choose|u: int|
            0 <= u < cols.len() && ((#[trigger] cols[u]).0 == c.0 || base.hlinks[cols[u].0 as int].prev.0 == c.0);
        assert(cols.contains(cols[u]));
        assert(cols[u] != c);
        let h = cols[u];
        assert(base.column_ok(h));
        let col = base.column_cells(h);
        if col.len() > 0 {
            assert(base.is_content(col[col.len() - 1]));
        }
    }
}

/// The cells that reach back into the old arena keep their rows.
#[verifier::rlimit(50)]
proof fn lemma_old_rows(base: MatrixView, after: MatrixView, cols: Seq<Cell>)
    requires
        base.wf(),
        after.shape_ok(),
        after.growing(base, cols),
    ensures
        after.live_columns() == base.live_columns(),
        after.header_ring_ok(),
        forall|x: Cell| base.is_content(x) ==> #[trigger] after.row_cells(x) == base.row_cells(x),
        forall|x: Cell| base.is_content(x) ==> #[trigger] after.row_ok(x),
{
    let live = base.live_columns();
    assert forall|k: int| 0 <= k < live.len() implies after.vlinks[(#[trigger] live[k]).0 as int]
        == base.vlinks[live[k].0 as int] by {
        assert(base.is_header(live[k]));
    }
    lemma_ring_frame(base.vlinks, after.vlinks, spec_head(), live);
    assert forall|x: Cell|
        #![trigger after.row_cells(x)]
        #![trigger after.row_ok(x)]
        base.is_content(x) implies after.row_cells(x) == base.row_cells(x) && after.row_ok(x) by {
        assert(base.row_ok(x));
        let row = base.row_cells(x);
        assert forall|k: int| 0 <= k < row.len() implies after.vlinks[(#[trigger] row[k]).0 as int]
            == base.vlinks[row[k].0 as int] by {
            assert(base.is_content(row[k]));
        }
        lemma_ring_frame(base.vlinks, after.vlinks, x, row);
        assert forall|k: int| 0 <= k < row.len() implies {
            &&& after.is_content(#[trigger] row[k])
            &&& after.headers[row[k].0 as int] != after.headers[x.0 as int]
        } by {
            assert(base.is_content(row[k]));
        }
    }
}

/// A circular list of consecutive cells, seen from each of them.
#[verifier::rlimit(50)]
proof fn lemma_fresh_cells(links: Seq<Link>, n0: int, m: int, u: int)
    requires
        0 <= n0,
        n0 + m <= usize::MAX,
        0 <= u < m,
        is_ring(links, Cell(n0 as usize), fresh(n0 + 1, m - 1)),
    ensures
        is_ring(links, Cell((n0 + u) as usize), around(n0, m, u)),
        ring(links, Cell((n0 + u) as usize)) == around(n0, m, u),
{
    let f = Cell(n0 as usize);
    let r = fresh(n0 + 1, m - 1);
    let row = around(n0, m, u);
    if u == 0 {
        lemma_ring_unique(links, f, r);
        assert(row.len() == r.len());
        assert forall|k: int| 0 <= k < row.len() implies row[k] == r[k] by {}
        assert(row =~= r);
    } else {
        lemma_rotate(links, f, r, u - 1);
        assert(r[u - 1] == Cell((n0 + u) as usize));
        let turned = rotated(f, r, u - 1);
        assert(turned.len() == row.len());
        assert forall|k: int| 0 <= k < row.len() implies turned[k] == row[k] by {
            if k < m - 1 - u {
                assert(turned[k] == r[k + u]);
            } else if k == m - 1 - u {
                assert(turned[k] == f);
            } else {
                assert(turned[k] == r[k - (m - u)]);
            }
        }
        assert(turned =~= row);
    }
}

/// The appended cells form one row, seen from each of them.
#[verifier::rlimit(50)]
proof fn lemma_fresh_row(base: MatrixView, after: MatrixView, cols: Seq<Cell>, u: int)
    requires
        base.shape_ok(),
        after.shape_ok(),
        after.growing(base, cols),
        cols.no_duplicates(),
        0 <= u < cols.len(),
    ensures
        after.row_cells(Cell((base.headers.len() + u) as usize)) == around(
            base.headers.len() as int,
            cols.len() as int,
            u,
        ),
        after.row_ok(Cell((base.headers.len() + u) as usize)),
{
    let n0 = base.headers.len() as int;
    let m = cols.len() as int;
    assert(after.headers.len() == n0 + m);
    let x = Cell((n0 + u) as usize);
    let row = around(n0, m, u);
    lemma_fresh_cells(after.vlinks, n0, m, u);
    assert(after.row_cells(x) == row);
    assert forall|k: int| 0 <= k < row.len() implies {
        &&& after.is_content(#[trigger] row[k])
        &&& after.headers[row[k].0 as int] != after.headers[x.0 as int]
    } by {
        let w = if u + 1 + k < m { u + 1 + k } else { u + 1 + k - m };
        assert(row[k] == Cell((n0 + w) as usize));
        assert(after.headers[n0 + w] == cols[w]);
        assert(after.headers[n0 + u] == cols[u]);
    }
}

/// Once every flag was seen, the appended cells form a row of their own and
/// the matrix is well formed again.
#[verifier::rlimit(50)]
pub proof fn lemma_row_complete(base: MatrixView, after: MatrixView, cols: Seq<Cell>)
    requires
        base.wf(),
        after.shape_ok(),
        forall|h: Cell| after.is_header(h) ==> #[trigger] after.column_ok(h),
        after.growing(base, cols),
        cols.no_duplicates(),
        forall|u: int| 0 <= u < cols.len() ==> base.is_header(#[trigger] cols[u]) && base.is_live(cols[u]),
    ensures
        after.wf(),
        after.extends(base, cols),
{
    let n0 = base.headers.len() as int;
    let m = cols.len() as int;
    assert(after.headers.len() == n0 + m);
    lemma_old_rows(base, after, cols);
    assert forall|u: int| 0 <= u < m implies #[trigger] after.row_cells(Cell((n0 + u) as usize)) == around(
        n0,
        m,
        u,
    ) by {
        lemma_fresh_row(base, after, cols, u);
    }
    assert forall|x: Cell| after.is_content(x) implies #[trigger] after.row_ok(x) by {
        if x.0 >= n0 {
            lemma_fresh_row(base, after, cols, x.0 - n0);
        } else {
            assert(base.is_content(x));
        }
    }
    assert forall|x: Cell| after.is_content(x) && after.is_active(x) implies #[trigger] after.row_active(x) by {
        if x.0 >= n0 {
            lemma_fresh_active(base, after, cols, x.0 - n0);
        } else {
            lemma_old_active(base, after, cols, x);
        }
    }
}

/// Every cell of the appended row is linked into a column that is not
/// covered.
#[verifier::rlimit(50)]
proof fn lemma_fresh_active(base: MatrixView, after: MatrixView, cols: Seq<Cell>, u: int)
    requires
        base.wf(),
        after.shape_ok(),
        after.growing(base, cols),
        after.live_columns() == base.live_columns(),
        cols.no_duplicates(),
        forall|u: int| 0 <= u < cols.len() ==> base.is_header(#[trigger] cols[u]) && base.is_live(cols[u]),
        0 <= u < cols.len(),
    ensures
        after.row_active(Cell((base.headers.len() + u) as usize)),
{
    let n0 = base.headers.len() as int;
    let m = cols.len() as int;
    assert(after.headers.len() == n0 + m);
    let x = Cell((n0 + u) as usize);
    lemma_fresh_row(base, after, cols, u);
    let row = after.row_cells(x);
    assert forall|k: int| 0 <= k < row.len() implies after.is_active(#[trigger] row[k]) by {
        let w = if u + 1 + k < m { u + 1 + k } else { u + 1 + k - m };
        assert(row[k] == Cell((n0 + w) as usize));
        assert(after.headers[n0 + w] == cols[w]);
        let grown = base.column_cells(cols[w]).push(Cell((n0 + w) as usize));
        assert(after.column_cells(cols[w]) == grown);
        assert(grown[grown.len() - 1] == row[k]);
        assert(base.is_live(cols[w]));
    }
}

/// A row of old cells that was wholly in play still is.
#[verifier::rlimit(50)]
proof fn lemma_old_active(base: MatrixView, after: MatrixView, cols: Seq<Cell>, x: Cell)
    requires
        base.wf(),
        after.shape_ok(),
        after.growing(base, cols),
        after.live_columns() == base.live_columns(),
        after.row_cells(x) == base.row_cells(x),
        base.is_content(x),
        after.is_active(x),
    ensures
        after.row_active(x),
{
    let row = after.row_cells(x);
    let h = base.headers[x.0 as int];
    assert(after.headers[x.0 as int] == h);
    assert(base.is_header(h));
    lemma_grown_column(base, after, cols, h);
    assert(base.in_play(x));
    assert(base.is_active(x));
    assert(base.row_active(x));
    assert(base.row_ok(x));
    assert forall|k: int| 0 <= k < row.len() implies after.is_active(#[trigger] row[k]) by {
        assert(base.is_active(row[k]));
        assert(base.is_content(row[k]));
        let hk = base.headers[row[k].0 as int];
        assert(after.headers[row[k].0 as int] == hk);
        lemma_grown_column(base, after, cols, hk);
    }
}

/// A column of the grown matrix holds what it held before, and at most one
/// cell more, which is new.
proof fn lemma_grown_column(base: MatrixView, after: MatrixView, cols: Seq<Cell>, h: Cell)
    requires
        base.shape_ok(),
        after.shape_ok(),
        after.growing(base, cols),
        base.is_header(h),
    ensures
        forall|x: Cell|
            x.0 < base.headers.len() ==> (after.column_cells(h).contains(x) <==> base.column_cells(h).contains(x)),
{
    let n0 = base.headers.len() as int;
    assert(after.headers.len() == n0 + cols.len());
    let old_col = base.column_cells(h);
    if cols.contains(h) {
        let u = choose|u: int| 0 <= u < cols.len() && cols[u] == h;
        let grown = old_col.push(Cell((n0 + u) as usize));
        assert(after.column_cells(cols[u]) == grown);
        assert forall|x: Cell| x.0 < base.headers.len() implies (grown.contains(x) <==> old_col.contains(x)) by {
            if old_col.contains(x) {
                let k = choose|k: int| 0 <= k < old_col.len() && old_col[k] == x;
                assert(grown[k] == x);
            }
            if grown.contains(x) {
                let k = choose|k: int| 0 <= k < grown.len() && grown[k] == x;
                assert(k < old_col.len());
                assert(old_col[k] == x);
            }
        }
    } else {
        assert(after.column_cells(h) == old_col);
    }
}

/// The columns picked by all the flags are declared columns that are not
/// covered, each picked once.
pub proof fn lemma_pick_all(base: MatrixView, flags: Seq<bool>)
    requires
        base.wf(),
        flags.len() <= base.live_columns().len(),
    ensures
        picked(base.live_columns(), flags).no_duplicates(),
        forall|u: int|
            0 <= u < picked(base.live_columns(), flags).len() ==> {
                &&& base.is_header(#[trigger] picked(base.live_columns(), flags)[u])
                &&& base.is_live(picked(base.live_columns(), flags)[u])
                &&& base.live_columns().subrange(0, flags.len() as int).contains(
                    picked(base.live_columns(), flags)[u],
                )
            },
{
    let live = base.live_columns();
    let cols = picked(live, flags);
    lemma_picked(live, flags);
    assert forall|u: int| 0 <= u < cols.len() implies {
        &&& base.is_header(#[trigger] cols[u])
        &&& base.is_live(cols[u])
    } by {
        let sub = live.subrange(0, flags.len() as int);
        assert(sub.contains(cols[u]));
        let t = choose|t: int| 0 <= t < sub.len() && sub[t] == cols[u];
        assert(base.is_header(live[t]));
    }
}

/// Where the walk along the headers stands when the `k`-th flag is read, and
/// what that flag picks.
#[verifier::rlimit(50)]
pub proof fn lemma_pick_next(base: MatrixView, cur: MatrixView, flags: Seq<bool>, k: int)
    requires
        base.wf(),
        flags.len() == base.live_columns().len(),
        0 <= k < flags.len(),
        cur.shape_ok(),
        cur.growing(base, picked(base.live_columns(), flags.take(k))),
        forall|h: Cell| cur.is_header(h) ==> #[trigger] cur.column_ok(h),
    ensures
        ({
            let live = base.live_columns();
            let cols = picked(live, flags.take(k));
            let at = if k == 0 { spec_head() } else { live[k - 1] };
            let c = live[k];
            &&& at.0 < cur.vlinks.len()
            &&& cur.vlinks[at.0 as int].next == c
            &&& base.is_header(c)
            &&& c.0 < cur.sizes.len()
            &&& cur.sizes[c.0 as int] < usize::MAX
            &&& cur.hlinks[c.0 as int].prev.0 < cur.hlinks.len()
            &&& cur.hlinks[cur.hlinks[c.0 as int].prev.0 as int].next == c
            &&& !cols.contains(c)
            &&& cols.no_duplicates()
            &&& forall|u: int| 0 <= u < cols.len() ==> base.is_header(#[trigger] cols[u])
            &&& picked(live, flags.take(k + 1)) == (if flags[k] { cols.push(c) } else { cols })
            &&& cols.len() > 0 ==> cur.vlinks[(base.headers.len() + cols.len() - 1) as int].next == Cell(
                base.headers.len() as usize,
            )
        }),
{
    let live = base.live_columns();
    let cols = picked(live, flags.take(k));
    let c = live[k];
    let n0 = base.headers.len() as int;
    lemma_pick_all(base, flags.take(k));
    assert(flags.take(k + 1).drop_last() =~= flags.take(k));
    assert forall|t: int| 0 <= t < live.len() implies cur.vlinks[(#[trigger] live[t]).0 as int]
        == base.vlinks[live[t].0 as int] by {
        assert(base.is_header(live[t]));
    }
    lemma_ring_frame(base.vlinks, cur.vlinks, spec_head(), live);
    if k > 0 {
        assert(base.is_header(live[k - 1]));
        assert(cur.vlinks[live[k - 1].0 as int].next == c);
    }
    assert(base.is_header(live[k]));
    assert(cur.column_ok(c));
    let col = cur.column_cells(c);
    if col.len() > 0 {
        assert(cur.is_content(col[col.len() - 1]));
        assert(cur.hlinks[col[col.len() - 1].0 as int].next == c);
    }
    assert(!cols.contains(c)) by {
        if cols.contains(c) {
            let u = choose|u: int| 0 <= u < cols.len() && cols[u] == c;
            let sub = live.subrange(0, k);
            assert(sub.contains(cols[u]));
            let t = choose|t: int| 0 <= t < sub.len() && sub[t] == cols[u];
            assert(live[t] == live[k]);
        }
    }
    if cols.len() > 0 {
        let r = fresh(n0 + 1, cols.len() - 1);
        assert(cur.headers.len() == n0 + cols.len());
        if r.len() > 0 {
            assert(r[r.len() - 1] == Cell((n0 + cols.len() - 1) as usize));
            assert(cur.vlinks[r[r.len() - 1].0 as int].next == Cell(n0 as usize));
        }
    }
}

/// The rows that could be chosen before the new row was appended can be
/// chosen as before.
#[verifier::rlimit(50)]
proof fn lemma_rows_kept(base: MatrixView, after: MatrixView, cols: Seq<Cell>, n: int)
    requires
        base.wf(),
        after.shape_ok(),
        after.growing(base, cols),
        after.extends(base, cols),
        n <= base.headers.len(),
    ensures
        after.rows_below(n) == base.rows_below(n),
    decreases n,
{
    if n > base.sizes.len() {
        lemma_rows_kept(base, after, cols, n - 1);
        let x = Cell((n - 1) as usize);
        assert(base.is_content(x));
        assert(base.row_ok(x));
        let row = base.row_cells(x);
        assert(after.row_cells(x) == row);
        assert(after.row_columns(x) =~= base.row_columns(x)) by {
            assert forall|q: int| 0 <= q < row.len() implies after.headers[(#[trigger] row[q]).0 as int]
                == base.headers[row[q].0 as int] by {
                assert(base.is_content(row[q]));
            }
        }
        assert(after.columns_of(x) =~= base.columns_of(x));
        let h = base.headers[x.0 as int];
        assert(after.headers[x.0 as int] == h);
        lemma_grown_column(base, after, cols, h);
        assert(after.is_active(x) == base.is_active(x));
    }
}

/// Of the cells of the appended row only the first leads it.
proof fn lemma_rows_tail(base: MatrixView, after: MatrixView, cols: Seq<Cell>, u: int)
    requires
        base.shape_ok(),
        after.shape_ok(),
        after.extends(base, cols),
        1 <= u <= cols.len(),
    ensures
        after.rows_below(base.headers.len() as int + u) == after.rows_below(base.headers.len() as int + 1),
    decreases u,
{
    if u > 1 {
        lemma_rows_tail(base, after, cols, u - 1);
        let n0 = base.headers.len() as int;
        let m = cols.len() as int;
        assert(after.headers.len() == n0 + m);
        let x = Cell((n0 + u - 1) as usize);
        let row = around(n0, m, u - 1);
        assert(after.row_cells(Cell((n0 + (u - 1)) as usize)) == row);
        let t = m - u;
        assert(row[t] == Cell(n0 as usize));
        assert(!after.leads(x));
    }
}

/// What appending a row does to the exact-cover problem: the columns stay,
/// and the rows gain one, behind the others, that stands in the columns
/// picked; a row for which no column was picked adds nothing.
#[verifier::rlimit(50)]
pub proof fn lemma_row_added(base: MatrixView, after: MatrixView, cols: Seq<Cell>)
    requires
        base.wf(),
        after.shape_ok(),
        after.growing(base, cols),
        after.extends(base, cols),
        cols.no_duplicates(),
        forall|u: int| 0 <= u < cols.len() ==> base.is_header(#[trigger] cols[u]) && base.is_live(cols[u]),
    ensures
        after.open_columns() == base.open_columns(),
        after.open_rows() == (if cols.len() > 0 {
            base.open_rows().push(cols.to_set())
        } else {
            base.open_rows()
        }),
{
    let n0 = base.headers.len() as int;
    let m = cols.len() as int;
    assert(after.headers.len() == n0 + m);
    assert(after.open_columns() =~= base.open_columns());
    lemma_rows_kept(base, after, cols, n0);
    if m > 0 {
        lemma_rows_tail(base, after, cols, m);
        let x = Cell(n0 as usize);
        let row = around(n0, m, 0);
        assert(after.row_cells(Cell((n0 + 0) as usize)) == row);
        assert(after.leads(x)) by {
            assert forall|q: int| 0 <= q < row.len() implies (#[trigger] row[q]).0 > x.0 by {
                assert(row[q] == Cell((n0 + 1 + q) as usize));
            }
        }
        assert(after.headers[n0] == cols[0]);
        let grown = base.column_cells(cols[0]).push(Cell((n0 + 0) as usize));
        assert(after.column_cells(cols[0]) == grown);
        assert(grown[grown.len() - 1] == x);
        assert(after.is_active(x));
        assert forall|h: Cell| after.columns_of(x).contains(h) <==> cols.to_set().contains(h) by {
            if after.columns_of(x).contains(h) {
                if h == after.headers[x.0 as int] {
                    assert(cols[0] == h);
                } else {
                    let q = choose|q: int| 0 <= q < after.row_columns(x).len() && after.row_columns(x)[q] == h;
                    assert(row[q] == Cell((n0 + 1 + q) as usize));
                    assert(after.headers[n0 + 1 + q] == cols[q + 1]);
                }
            }
            if cols.contains(h) {
                let u = choose|u: int| 0 <= u < cols.len() && cols[u] == h;
                if u > 0 {
                    assert(row[u - 1] == Cell((n0 + u) as usize));
                    assert(after.headers[n0 + u] == cols[u]);
                    assert(after.row_columns(x)[u - 1] == h);
                }
            }
        }
        assert(after.columns_of(x) =~= cols.to_set());
        assert(Cell(((n0 + 1) - 1) as usize) == x);
    }
}

} // verus!
