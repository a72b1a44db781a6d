use vstd::prelude::*;
use crate::dancing_links::cells::Cell;
use crate::dancing_links::links::{Link, LinkedList, has_ring, is_ring, lemma_ring_unique, ring};
use crate::dancing_links::covering::{lemma_cover, lemma_cover_at, lemma_cover_step, lemma_rows_of_take, shrunk, unlinked_all};
use crate::dancing_links::cursors::Cursor;
use crate::dancing_links::growth::{lemma_append_cell, lemma_pick_all, lemma_pick_next, lemma_row_added, lemma_row_complete};
use crate::dancing_links::links::{relinked, unlinked};
use crate::dancing_links::rings::lemma_unlink_member;
use crate::dancing_links::rings::{lemma_ring_frame, lemma_splice_last};

verus! {

/// The sentinel that anchors the list of column headers.
pub open spec fn spec_head() -> Cell {
    Cell(0)
}

/// The sentinel that anchors the list of column headers.
#[verifier::when_used_as_spec(spec_head)]
pub fn head() -> (cell: Cell)
    ensures
        cell == spec_head(),
{
    Cell(0)
}

/// A sparse boolean matrix. `vlinks` threads the column headers behind the sentinel
/// and, apart from that, the cells of each row; `hlinks` threads each column
/// header with the cells of its column. `headers` gives each cell its column
/// header and `sizes` holds, per header, the number of cells in its column.
#[derive(Debug)]
pub struct Matrix {
    pub hlinks: LinkedList,
    pub vlinks: LinkedList,
    pub headers: Vec<Cell>,
    pub sizes: Vec<usize>,
}

/// The contents of a matrix as plain sequences.
pub struct MatrixView {
    pub hlinks: Seq<Link>,
    pub vlinks: Seq<Link>,
    pub headers: Seq<Cell>,
    pub sizes: Seq<usize>,
}

impl View for Matrix {
    type V = MatrixView;

    open spec fn view(&self) -> MatrixView {
        MatrixView {
            hlinks: self.hlinks@,
            vlinks: self.vlinks@,
            headers: self.headers@,
            sizes: self.sizes@,
        }
    }
}

/// The members of `cols` at the positions where `flags` holds `true`.
pub open spec fn picked(cols: Seq<Cell>, flags: Seq<bool>) -> Seq<Cell>
    decreases flags.len(),
{
    if flags.len() == 0 {
        Seq::empty()
    } else {
        let rest = picked(cols, flags.drop_last());
        if flags.last() {
            rest.push(cols[flags.len() - 1])
        } else {
            rest
        }
    }
}

/// The `m` cells from index `n0` on.
pub open spec fn fresh(n0: int, m: int) -> Seq<Cell> {
    Seq::new(m as nat, |u: int| Cell((n0 + u) as usize))
}

/// The `m` cells from index `n0` on without the one at offset `u`, in
/// cyclic order from behind that one.
pub open spec fn around(n0: int, m: int, u: int) -> Seq<Cell> {
    Seq::new(
        (m - 1) as nat,
        |t: int|
            if u + 1 + t < m {
                Cell((n0 + u + 1 + t) as usize)
            } else {
                Cell((n0 + u + 1 + t - m) as usize)
            },
    )
}

/// What is picked is picked once, and from the positions that the flags
/// reach.
pub proof fn lemma_picked(cols: Seq<Cell>, flags: Seq<bool>)
    requires
        cols.no_duplicates(),
        flags.len() <= cols.len(),
    ensures
        picked(cols, flags).no_duplicates(),
        picked(cols, flags).len() <= flags.len(),
        forall|u: int|
            0 <= u < picked(cols, flags).len() ==> cols.subrange(0, flags.len() as int).contains(
                #[trigger] picked(cols, flags)[u],
            ),
    decreases flags.len(),
{
    if flags.len() > 0 {
        let shorter = flags.drop_last();
        let rest = picked(cols, shorter);
        lemma_picked(cols, shorter);
        let n = flags.len() as int;
        assert forall|u: int| 0 <= u < rest.len() implies cols.subrange(0, n).contains(#[trigger] rest[u])
            && rest[u] != cols[n - 1] by {
            let sub = cols.subrange(0, n - 1);
            assert(sub.contains(rest[u]));
            let i = choose|i: int| 0 <= i < sub.len() && sub[i] == rest[u];
            assert(cols.subrange(0, n)[i] == rest[u]);
        }
        if flags.last() {
            assert(cols.subrange(0, n)[n - 1] == cols[n - 1]);
        }
    }
}

impl MatrixView {
    /// Entry `x` of `hlinks` is one that appending cells for the columns
    /// `cols` rewrites: that of a column of `cols`, or that of the cell that
    /// was the last of such a column.
    pub open spec fn rewritten(self, cols: Seq<Cell>, x: int) -> bool {
        exists|u: int|
            0 <= u < cols.len() && ((#[trigger] cols[u]).0 == x || self.hlinks[cols[u].0 as int].prev.0 == x)
    }

    /// `self` is `base` with the cells of one more row appended, one for each
    /// column of `cols` in that order: each sits at the end of its column, and
    /// the first of them anchors the circular list of the row.
    pub open spec fn growing(self, base: MatrixView, cols: Seq<Cell>) -> bool {
        let n0 = base.headers.len() as int;
        &&& self.sizes.len() == base.sizes.len()
        &&& self.headers == base.headers + cols
        &&& forall|x: int| 0 <= x < n0 ==> #[trigger] self.vlinks[x] == base.vlinks[x]
        &&& forall|u: int|
            0 <= u < cols.len() ==> self.column_cells(#[trigger] cols[u]) == base.column_cells(cols[u]).push(
                Cell((n0 + u) as usize),
            )
        &&& forall|h: Cell|
            base.is_header(h) && !cols.contains(h) ==> #[trigger] self.column_cells(h)
                == base.column_cells(h)
        &&& cols.len() > 0 ==> is_ring(self.vlinks, Cell(n0 as usize), fresh(n0 + 1, cols.len() - 1))
        &&& self.sizes[0] == base.sizes[0]
        &&& forall|x: int| 0 <= x < n0 && !base.rewritten(cols, x) ==> #[trigger] self.hlinks[x] == base.hlinks[x]
    }

    /// `self` is `base` with one more row appended, whose cells stand in the
    /// columns `cols` in that order.
    pub open spec fn extends(self, base: MatrixView, cols: Seq<Cell>) -> bool {
        let n0 = base.headers.len() as int;
        &&& self.sizes.len() == base.sizes.len()
        &&& self.headers == base.headers + cols
        &&& self.live_columns() == base.live_columns()
        &&& forall|x: int| 0 <= x < n0 ==> #[trigger] self.vlinks[x] == base.vlinks[x]
        &&& forall|x: Cell| base.is_content(x) ==> #[trigger] self.row_cells(x) == base.row_cells(x)
        &&& forall|u: int|
            0 <= u < cols.len() ==> self.column_cells(#[trigger] cols[u]) == base.column_cells(cols[u]).push(
                Cell((n0 + u) as usize),
            )
        &&& forall|h: Cell|
            base.is_header(h) && !cols.contains(h) ==> #[trigger] self.column_cells(h)
                == base.column_cells(h)
        &&& forall|u: int|
            0 <= u < cols.len() ==> #[trigger] self.row_cells(Cell((n0 + u) as usize)) == around(
                n0,
                cols.len() as int,
                u,
            )
        &&& self.sizes[0] == base.sizes[0]
        &&& forall|x: int| 0 <= x < n0 && !base.rewritten(cols, x) ==> #[trigger] self.hlinks[x] == base.hlinks[x]
    }

    /// `c` is the header of a declared column.
    pub open spec fn is_header(self, c: Cell) -> bool {
        1 <= c.0 < self.sizes.len()
    }

    /// `c` stands for a `true` entry of some row.
    pub open spec fn is_content(self, c: Cell) -> bool {
        self.sizes.len() <= c.0 < self.headers.len()
    }

    /// The headers of the columns that are not covered, in list order.
    pub open spec fn live_columns(self) -> Seq<Cell> {
        ring(self.vlinks, head())
    }

    /// The cells currently linked into the column of header `h`, in list order.
    pub open spec fn column_cells(self, h: Cell) -> Seq<Cell> {
        ring(self.hlinks, h)
    }

    /// The other cells of the row of `x`, in list order from `x`.
    pub open spec fn row_cells(self, x: Cell) -> Seq<Cell> {
        ring(self.vlinks, x)
    }

    /// The column of header `h` is not covered.
    pub open spec fn is_live(self, h: Cell) -> bool {
        self.live_columns().contains(h)
    }

    /// `x` is linked into the list of its column.
    pub open spec fn in_play(self, x: Cell) -> bool {
        self.column_cells(self.headers[x.0 as int]).contains(x)
    }

    /// `x` is linked into a column that is not covered.
    pub open spec fn is_active(self, x: Cell) -> bool {
        self.in_play(x) && self.is_live(self.headers[x.0 as int])
    }

    /// The tables have matching lengths, each header is its own header, and
    /// each content cell belongs to a declared column.
    pub open spec fn shape_ok(self) -> bool {
        &&& 1 <= self.sizes.len() <= self.headers.len() <= usize::MAX
        &&& self.hlinks.len() == self.headers.len()
        &&& self.vlinks.len() == self.headers.len()
        &&& forall|i: int| 0 <= i < self.sizes.len() ==> (#[trigger] self.headers[i]).0 == i
        &&& forall|i: int|
            self.sizes.len() <= i < self.headers.len() ==> 1 <= (#[trigger] self.headers[i]).0
                < self.sizes.len()
    }

    /// The list behind the sentinel is circular and holds headers only.
    pub open spec fn header_ring_ok(self) -> bool {
        &&& has_ring(self.vlinks, head())
        &&& forall|k: int|
            0 <= k < self.live_columns().len() ==> self.is_header(#[trigger] self.live_columns()[k])
    }

    /// The list of column `h` is circular, holds content cells of that column
    /// only, and `sizes` records its length.
    pub open spec fn column_ok(self, h: Cell) -> bool {
        &&& has_ring(self.hlinks, h)
        &&& forall|k: int|
            0 <= k < self.column_cells(h).len() ==> {
                &&& self.is_content(#[trigger] self.column_cells(h)[k])
                &&& self.headers[self.column_cells(h)[k].0 as int] == h
            }
        &&& self.sizes[h.0 as int] == self.column_cells(h).len()
    }

    /// The row of `x` is circular and holds content cells only, each in
    /// another column than `x`.
    pub open spec fn row_ok(self, x: Cell) -> bool {
        &&& has_ring(self.vlinks, x)
        &&& forall|k: int|
            0 <= k < self.row_cells(x).len() ==> {
                &&& self.is_content(#[trigger] self.row_cells(x)[k])
                &&& self.headers[self.row_cells(x)[k].0 as int] != self.headers[x.0 as int]
            }
    }

    /// Every other cell of the row of `x` is linked into a column that is not
    /// covered.
    pub open spec fn row_active(self, x: Cell) -> bool {
        forall|k: int| 0 <= k < self.row_cells(x).len() ==> self.is_active(#[trigger] self.row_cells(x)[k])
    }

    /// The invariant of a matrix. It holds between any two operations, also
    /// while covers are pending: the header list, every column list and every
    /// row are circular lists of the right kind of cell, `sizes` counts what
    /// each column list holds, and a row is withdrawn from the uncovered
    /// columns either wholly or not at all.
    pub open spec fn wf(self) -> bool {
        &&& self.shape_ok()
        &&& self.header_ring_ok()
        &&& forall|h: Cell| self.is_header(h) ==> #[trigger] self.column_ok(h)
        &&& forall|x: Cell| self.is_content(x) ==> #[trigger] self.row_ok(x)
        &&& forall|x: Cell| self.is_content(x) && self.is_active(x) ==> #[trigger] self.row_active(x)
    }

    /// A matrix of `n` columns without rows.
    pub open spec fn is_blank(self, n: nat) -> bool {
        &&& self.sizes == Seq::new(n + 1, |i: int| 0usize)
        &&& self.headers == Seq::new(n + 1, |i: int| Cell(i as usize))
        &&& self.hlinks == Seq::new(n + 1, |i: int| Link { prev: Cell(i as usize), next: Cell(i as usize) })
        &&& self.vlinks.len() == n + 1
        &&& self.live_columns() == Seq::new(n, |i: int| Cell((i + 1) as usize))
    }
}

impl Matrix {
    /// A matrix of `n_cols` columns and no rows: the sentinel, then one
    /// header per column, linked behind the sentinel in that order.
    #[verifier::rlimit(50)]
    pub fn new(n_cols: usize) -> (matrix: Matrix)
        requires
            n_cols < usize::MAX,
        ensures
            matrix@.wf(),
            matrix@.is_blank(n_cols as nat),
            matrix@.open_rows() == Seq::<Set<Cell>>::empty(),
            matrix@.open_columns() == Set::new(|h: Cell| 1 <= h.0 <= n_cols),
    {
        let mut res = Matrix {
            hlinks: LinkedList::with_capacity(n_cols + 1),
            vlinks: LinkedList::with_capacity(n_cols + 1),
            headers: Vec::with_capacity(n_cols + 1),
            sizes: Vec::with_capacity(n_cols + 1),
        };
        let first = res.allocate(head());
        res.sizes.push(0);
        proof {
            let v = res@;
            assert(is_ring(v.vlinks, head(), Seq::<Cell>::empty()));
            lemma_ring_unique(v.vlinks, head(), Seq::<Cell>::empty());
            assert(v.live_columns() =~= Seq::new(0nat, |i: int| Cell((i + 1) as usize)));
            assert(v.sizes =~= Seq::new(1nat, |i: int| 0usize));
            assert(v.headers =~= Seq::new(1nat, |i: int| Cell(i as usize)));
            assert(v.hlinks =~= Seq::new(1nat, |i: int| Link { prev: Cell(i as usize), next: Cell(i as usize) }));
        }
        let mut i: usize = 0;
        while i < n_cols
            invariant
                i <= n_cols < usize::MAX,
                res@.wf(),
                res@.is_blank(i as nat),
            decreases n_cols - i,
        {
            res.add_column();
            i += 1;
            proof {
                let v = res@;
                assert(v.live_columns() =~= Seq::new(i as nat, |t: int| Cell((t + 1) as usize)));
                assert(v.sizes =~= Seq::new((i + 1) as nat, |t: int| 0usize));
                assert(v.headers =~= Seq::new((i + 1) as nat, |t: int| Cell(t as usize)));
                assert(v.hlinks =~= Seq::new(
                    (i + 1) as nat,
                    |t: int| Link { prev: Cell(t as usize), next: Cell(t as usize) },
                ));
            }
        }
        proof {
            let v = res@;
            let live = v.live_columns();
            assert forall|h: Cell| v.open_columns().contains(h) <==> 1 <= h.0 <= n_cols by {
                if v.is_live(h) {
                    let k = choose|k: int| 0 <= k < live.len() && live[k] == h;
                    assert(live[k] == Cell((k + 1) as usize));
                }
                if 1 <= h.0 <= n_cols {
                    assert(live[h.0 - 1] == h);
                }
            }
            assert(v.open_columns() =~= Set::new(|h: Cell| 1 <= h.0 <= n_cols));
        }
        res
    }

    /// Appends one row. `row` holds one flag per column, in the order in
    /// which the columns were declared; each `true` becomes a new cell at the
    /// end of its column, and the new cells are linked into a row of their
    /// own. A row without `true` adds nothing.
    #[verifier::rlimit(50)]
    pub fn add_row(&mut self, row: &[bool])
        requires
            old(self)@.wf(),
            old(self)@.live_columns().len() + 1 == old(self)@.sizes.len(),
            row@.len() + 1 == old(self)@.sizes.len(),
        ensures
            final(self)@.wf(),
            final(self)@.extends(old(self)@, picked(old(self)@.live_columns(), row@)),
            final(self)@.open_columns() == old(self)@.open_columns(),
            final(self)@.open_rows() == (if picked(old(self)@.live_columns(), row@).len() > 0 {
                old(self)@.open_rows().push(picked(old(self)@.live_columns(), row@).to_set())
            } else {
                old(self)@.open_rows()
            }),
    {
        let ghost base = self@;
        let ghost live = base.live_columns();
        let ghost n0 = base.headers.len() as int;
        let mut cell = head();
        let mut prev: Option<Cell> = None;
        let mut k: usize = 0;
        while k < row.len()
            invariant
                k <= row.len(),
                base.wf(),
                live == base.live_columns(),
                live.len() == row@.len(),
                n0 == base.headers.len(),
                self@.shape_ok(),
                forall|h: Cell| self@.is_header(h) ==> #[trigger] self@.column_ok(h),
                self@.growing(base, picked(live, row@.take(k as int))),
                cell == (if k == 0 { head() } else { live[k - 1] }),
                prev == (if picked(live, row@.take(k as int)).len() == 0 {
                    None
                } else {
                    Some(Cell((n0 + picked(live, row@.take(k as int)).len() - 1) as usize))
                }),
            decreases row.len() - k,
        {
            let ghost cols = picked(live, row@.take(k as int));
            let ghost before = self@;
            proof {
                lemma_pick_next(base, self@, row@, k as int);
            }
            let is_filled = row[k];
            cell = self.vlinks.data[cell.0].next;
            if is_filled {
                let size = self.sizes[cell.0];
                self.sizes[cell.0] = size + 1;
                let new_cell = self.allocate(cell);
                let last = self.hlinks.data[cell.0].prev;
                self.hlinks.insert(last, new_cell);
                if let Some(prev) = prev {
                    self.vlinks.insert(prev, new_cell);
                }
                prev = Some(new_cell);
                proof {
                    assert(self.headers.len() <= usize::MAX);
                    lemma_append_cell(base, before, self@, cols, cell, new_cell);
                }
            }
            k += 1;
        }
        proof {
            assert(row@.take(k as int) =~= row@);
            lemma_pick_all(base, row@);
            lemma_row_complete(base, self@, picked(live, row@));
            lemma_row_added(base, self@, picked(live, row@));
        }
    }

    /// Covers the column of header `cell`: the header leaves the header
    /// list, and every row that has a cell in the column leaves all the
    /// other columns it stands in.
    #[verifier::rlimit(50)]
    pub fn cover(&mut self, cell: Cell)
        requires
            old(self)@.wf(),
            old(self)@.is_live(cell),
        ensures
            final(self)@ == old(self)@.cover(cell),
            final(self)@.wf(),
            final(self)@.covered_at(cell),
    {
        let ghost s = self@;
        let ghost col = s.column_cells(cell);
        let ghost trace = s.cover_trace(cell);
        let ghost live = s.live_columns();
        proof {
            lemma_cover(s, cell);
            lemma_unlink_member(s.vlinks, head(), live, live.index_of(cell));
            assert(trace.take(0) =~= Seq::<Cell>::empty());
            assert(col.take(0) =~= Seq::<Cell>::empty());
        }
        self.vlinks.remove(cell);
        let mut outer = Cursor::from_head(cell);
        let ghost mut k: int = 0;
        let ghost mut t: int = 0;
        loop
            invariant_except_break
                outer.position() == (if k == 0 { cell } else { col[k - 1] }),
            invariant
                s.wf(),
                s.is_live(cell),
                col == s.column_cells(cell),
                trace == s.cover_trace(cell),
                0 <= k <= col.len(),
                t == s.offset(col, k),
                0 <= t <= trace.len(),
                outer.head() == cell,
                self@.vlinks == unlinked(s.vlinks, cell),
                self@.headers == s.headers,
                self@.hlinks == unlinked_all(s.hlinks, trace.take(t)),
                self@.sizes == shrunk(s.sizes, s.headers, trace.take(t)),
            ensures
                k == col.len(),
            decreases col.len() - k,
        {
            proof {
                lemma_cover_at(s, cell, t);
                if k > 0 {
                    assert(s.is_content(col[k - 1]));
                }
            }
            match outer.next(&self.hlinks) {
                None => {
                    break ;
                },
                Some(i) => {
                    let ghost row = s.row_cells(i);
                    proof {
                        assert(i == col[k]);
                        lemma_cover(s, cell);
                        assert(s.is_content(i));
                        assert(s.cover(cell).row_ok(i));
                        assert(s.cover(cell).row_cells(i) == row);
                    }
                    let mut inner = Cursor::from_head(i);
                    let ghost mut q: int = 0;
                    loop
                        invariant_except_break
                            inner.position() == (if q == 0 { i } else { row[q - 1] }),
                        invariant
                            s.wf(),
                            s.is_live(cell),
                            col == s.column_cells(cell),
                            trace == s.cover_trace(cell),
                            0 <= k < col.len(),
                            i == col[k],
                            row == s.row_cells(i),
                            0 <= q <= row.len(),
                            t == s.offset(col, k) + q,
                            0 <= t <= trace.len(),
                            is_ring(self@.vlinks, i, row),
                            inner.head() == i,
                            self@.vlinks == unlinked(s.vlinks, cell),
                            self@.headers == s.headers,
                            self@.hlinks == unlinked_all(s.hlinks, trace.take(t)),
                            self@.sizes == shrunk(s.sizes, s.headers, trace.take(t)),
                        ensures
                            q == row.len(),
                        decreases row.len() - q,
                    {
                        match inner.next(&self.vlinks) {
                            None => {
                                break ;
                            },
                            Some(j) => {
                                proof {
                                    assert(j == row[q]);
                                    lemma_cover_step(s, cell, k, q);
                                }
                                self.hlinks.remove(j);
                                let h = self.headers[j.0];
                                let size = self.sizes[h.0];
                                self.sizes[h.0] = size - 1;
                                proof {
                                    q = q + 1;
                                    t = t + 1;
                                }
                            },
                        }
                    }
                    proof {
                        lemma_rows_of_take(s, col, k);
                        k = k + 1;
                    }
                },
            }
        }
        proof {
            assert(col.take(col.len() as int) =~= col);
            assert(trace.take(trace.len() as int) =~= trace);
            assert(self@ == s.cover(cell));
        }
    }

    /// Uncovers the column of header `cell`, which must be the column that
    /// was covered last and not yet uncovered: the rows come back into their
    /// columns in the opposite order, and the header comes back last.
    #[verifier::rlimit(50)]
    pub fn uncover(&mut self, cell: Cell)
        requires
            old(self)@.covered_at(cell),
        ensures
            final(self)@ == old(self)@.uncover(cell),
            final(self)@.wf(),
            final(self)@.is_live(cell),
            final(self)@.cover(cell) == old(self)@,
    {
        let ghost s = choose|before: MatrixView| #[trigger]
            before.cover(cell) == self@ && before.wf() && before.is_live(cell);
        let ghost col = s.column_cells(cell);
        let ghost trace = s.cover_trace(cell);
        let ghost live = s.live_columns();
        proof {
            lemma_cover(s, cell);
            assert(col.take(col.len() as int) =~= col);
            assert(trace.take(trace.len() as int) =~= trace);
        }
        let mut outer = Cursor::from_head(cell);
        let ghost mut k: int = col.len() as int;
        let ghost mut t: int = trace.len() as int;
        loop
            invariant_except_break
                outer.position() == (if k == col.len() { cell } else { col[k] }),
            invariant
                s.wf(),
                s.is_live(cell),
                col == s.column_cells(cell),
                trace == s.cover_trace(cell),
                0 <= k <= col.len(),
                t == s.offset(col, k),
                0 <= t <= trace.len(),
                outer.head() == cell,
                self@.vlinks == unlinked(s.vlinks, cell),
                self@.headers == s.headers,
                self@.hlinks == unlinked_all(s.hlinks, trace.take(t)),
                self@.sizes == shrunk(s.sizes, s.headers, trace.take(t)),
            ensures
                k == 0,
            decreases k,
        {
            proof {
                lemma_cover_at(s, cell, t);
                if k < col.len() {
                    assert(s.is_content(col[k]));
                }
            }
            match outer.prev(&self.hlinks) {
                None => {
                    break ;
                },
                Some(i) => {
                    let ghost row = s.row_cells(i);
                    proof {
                        assert(i == col[k - 1]);
                        lemma_cover(s, cell);
                        assert(s.is_content(i));
                        assert(s.cover(cell).row_ok(i));
                        assert(s.cover(cell).row_cells(i) == row);
                        lemma_rows_of_take(s, col, k - 1);
                    }
                    let mut inner = Cursor::from_head(i);
                    let ghost mut q: int = row.len() as int;
                    loop
                        invariant_except_break
                            inner.position() == (if q == row.len() { i } else { row[q] }),
                        invariant
                            s.wf(),
                            s.is_live(cell),
                            col == s.column_cells(cell),
                            trace == s.cover_trace(cell),
                            0 < k <= col.len(),
                            i == col[k - 1],
                            row == s.row_cells(i),
                            0 <= q <= row.len(),
                            t == s.offset(col, k - 1) + q,
                            0 <= t <= trace.len(),
                            is_ring(self@.vlinks, i, row),
                            inner.head() == i,
                            self@.vlinks == unlinked(s.vlinks, cell),
                            self@.headers == s.headers,
                            self@.hlinks == unlinked_all(s.hlinks, trace.take(t)),
                            self@.sizes == shrunk(s.sizes, s.headers, trace.take(t)),
                        ensures
                            q == 0,
                        decreases q,
                    {
                        match inner.prev(&self.vlinks) {
                            None => {
                                break ;
                            },
                            Some(j) => {
                                proof {
                                    assert(j == row[q - 1]);
                                    lemma_cover_step(s, cell, k - 1, q - 1);
                                }
                                let h = self.headers[j.0];
                                let size = self.sizes[h.0];
                                self.sizes[h.0] = size + 1;
                                self.hlinks.restore(j);
                                proof {
                                    q = q - 1;
                                    t = t - 1;
                                }
                            },
                        }
                    }
                    proof {
                        k = k - 1;
                    }
                },
            }
        }
        proof {
            assert(col.take(0) =~= Seq::<Cell>::empty());
            assert(trace.take(0) =~= Seq::<Cell>::empty());
            lemma_unlink_member(s.vlinks, head(), live, live.index_of(cell));
        }
        self.vlinks.restore(cell);
        proof {
            assert(self@ == s);
        }
    }

    /// Declares one more column, behind those declared so far. Only a matrix
    /// without rows can take one.
    #[verifier::rlimit(50)]
    fn add_column(&mut self)
        requires
            old(self)@.wf(),
            old(self)@.sizes.len() == old(self)@.headers.len(),
            old(self)@.live_columns().len() + 1 == old(self)@.sizes.len(),
        ensures
            final(self)@.wf(),
            final(self)@.sizes == old(self)@.sizes.push(0usize),
            final(self)@.headers == old(self)@.headers.push(Cell(old(self)@.headers.len() as usize)),
            final(self)@.hlinks == old(self)@.hlinks.push(
                Link {
                    prev: Cell(old(self)@.headers.len() as usize),
                    next: Cell(old(self)@.headers.len() as usize),
                },
            ),
            final(self)@.vlinks.len() == old(self)@.vlinks.len() + 1,
            final(self)@.live_columns() == old(self)@.live_columns().push(
                Cell(old(self)@.headers.len() as usize),
            ),
    {
        let ghost before = self@;
        let new_col = self.allocate(head());
        self.headers[new_col.0] = new_col;
        self.sizes.push(0);
        let ghost mid = self@;
        let last = self.vlinks.data[head().0].prev;
        proof {
            let live = before.live_columns();
            lemma_ring_frame(before.vlinks, mid.vlinks, head(), live);
            assert(!live.contains(new_col)) by {
                if live.contains(new_col) {
                    let k = choose|k: int| 0 <= k < live.len() && live[k] == new_col;
                    assert(before.is_header(live[k]));
                }
            }
            lemma_splice_last(mid.vlinks, head(), live, new_col);
        }
        self.vlinks.insert(last, new_col);
        proof {
            let after = self@;
            let live = before.live_columns();
            assert(self.headers.len() <= usize::MAX);
            assert(after.live_columns() == live.push(new_col));
            assert(after.shape_ok());
            assert(after.header_ring_ok());
            assert forall|h: Cell| after.is_header(h) implies #[trigger] after.column_ok(h) by {
                if h == new_col {
                    assert(is_ring(after.hlinks, h, Seq::<Cell>::empty()));
                    lemma_ring_unique(after.hlinks, h, Seq::<Cell>::empty());
                } else {
                    assert(before.column_ok(h));
                    lemma_ring_frame(before.hlinks, after.hlinks, h, before.column_cells(h));
                }
            }
        }
    }

    /// Appends one cell of column `c` to the arena, linked to nothing.
    fn allocate(&mut self, c: Cell) -> (cell: Cell)
        requires
            old(self)@.hlinks.len() == old(self)@.headers.len(),
            old(self)@.vlinks.len() == old(self)@.headers.len(),
        ensures
            cell.0 == old(self)@.headers.len(),
            final(self)@.headers == old(self)@.headers.push(c),
            final(self)@.vlinks == old(self)@.vlinks.push(Link { prev: cell, next: cell }),
            final(self)@.hlinks == old(self)@.hlinks.push(Link { prev: cell, next: cell }),
            final(self)@.sizes == old(self)@.sizes,
    {
        self.headers.push(c);
        let cell = self.vlinks.allocate();
        let twin = self.hlinks.allocate();
        cell
    }
}

} // verus!
