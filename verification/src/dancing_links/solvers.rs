use vstd::prelude::*;
use crate::dancing_links::cells::Cell;
use crate::dancing_links::counting::{clipped, least, lemma_branch, lemma_cover_all, lemma_depth, lemma_least, lemma_row_columns};
use crate::dancing_links::covering::lemma_cover;
use crate::dancing_links::cursors::Cursor;
use crate::dancing_links::exact::exact_covers;
use crate::dancing_links::soundness::lemma_count_is_exact;
use crate::dancing_links::links::is_ring;
use crate::dancing_links::matrix::{Matrix, MatrixView, head};

verus! {

/// Counts the exact covers of the matrix: the ways to choose some of its
/// rows such that each column that is not covered holds a cell of exactly
/// one chosen row. The search branches on the column with the fewest cells,
/// the first of them in list order, and the matrix is the same after the
/// search as before it, entry for entry. A count that no machine word can
/// hold is reported as the largest word.
#[verifier::rlimit(50)]
pub fn solve(matrix: &mut Matrix) -> (n_answers: usize)
    requires
        old(matrix)@.wf(),
    ensures
        final(matrix)@ == old(matrix)@,
        n_answers == clipped(exact_covers(old(matrix)@.open_rows(), old(matrix)@.open_columns())),
    decreases old(matrix)@.live_columns().len(),
{
    let ghost s = matrix@;
    let ghost live = s.live_columns();
    proof {
        lemma_count_is_exact(s);
    }
    let mut n_answers: usize = 0;
    let mut look = Cursor::from_head(head());
    let mut cell = match look.next(&matrix.vlinks) {
        Some(it) => it,
        None => {
            return 1;
        },
    };
    let ghost mut seen: int = 1;
    proof {
        assert(live.take(1).len() == 1);
        assert(live.take(1)[0] == live[0]);
    }
    loop
        invariant_except_break
            look.position() == live[seen - 1],
        invariant
            matrix@ == s,
            s.wf(),
            live == s.live_columns(),
            1 <= seen <= live.len(),
            look.head() == head(),
            cell == least(s.sizes, live.take(seen)),
            live.take(seen).contains(cell),
        ensures
            seen == live.len(),
        decreases live.len() - seen,
    {
        proof {
            assert(s.is_header(live[seen - 1]));
            lemma_least(s.sizes, live.take(seen));
            let w = choose|w: int| 0 <= w < live.take(seen).len() && live.take(seen)[w] == cell;
            assert(s.is_header(live[w]));
        }
        match look.next(&matrix.vlinks) {
            None => {
                break ;
            },
            Some(next_cell) => {
                proof {
                    assert(next_cell == live[seen]);
                    assert(s.is_header(live[seen]));
                    assert(live.take(seen + 1).drop_last() =~= live.take(seen));
                    assert(live.take(seen + 1).last() == live[seen]);
                }
                if matrix.sizes[next_cell.0] < matrix.sizes[cell.0] {
                    cell = next_cell;
                }
                proof {
                    seen = seen + 1;
                    lemma_least(s.sizes, live.take(seen));
                }
            },
        }
    }
    proof {
        assert(live.take(seen) =~= live);
        assert(cell == s.pick());
        lemma_cover(s, cell);
    }
    matrix.cover(cell);
    let ghost s1 = matrix@;
    let ghost col = s.column_cells(cell);
    let ghost depth = (live.len() - 1) as nat;
    let mut outer = Cursor::from_head(cell);
    let ghost mut k: int = 0;
    loop
        invariant_except_break
            outer.position() == (if k == 0 { cell } else { col[k - 1] }),
        invariant
            s == old(matrix)@,
            s.wf(),
            s.is_live(cell),
            live == s.live_columns(),
            depth == live.len() - 1,
            s1 == s.cover(cell),
            s1.wf(),
            col == s.column_cells(cell),
            col == s1.column_cells(cell),
            s1.is_header(cell),
            matrix@ == s1,
            0 <= k <= col.len(),
            outer.head() == cell,
            n_answers == clipped(s1.branches(cell, k as nat, depth)),
            s.count() == exact_covers(s.open_rows(), s.open_columns()),
        ensures
            k == col.len(),
        decreases col.len() - k,
    {
        proof {
            assert(s1.column_ok(cell));
            if k > 0 {
                assert(s1.is_content(col[k - 1]));
            }
        }
        match outer.next(&matrix.hlinks) {
            None => {
                break ;
            },
            Some(i) => {
                let ghost row = s.row_cells(i);
                let ghost cols = s.row_columns(i);
                proof {
                    assert(i == col[k]);
                    lemma_row_columns(s, cell, k);
                    lemma_branch(s, cell, k);
                    lemma_cover(s, cell);
                    assert(s.is_content(i));
                    assert(s1.row_cells(i) == row);
                    assert(s1.is_content(i));
                    assert(cols.take(0) =~= Seq::<Cell>::empty());
                }
                let mut inner = Cursor::from_head(i);
                let ghost mut q: int = 0;
                loop
                    invariant_except_break
                        inner.position() == (if q == 0 { i } else { row[q - 1] }),
                    invariant
                        s1.wf(),
                        s1.is_content(i),
                        row == s1.row_cells(i),
                        cols == s1.row_columns(i),
                        cols.len() == row.len(),
                        cols.no_duplicates(),
                        forall|w: int| 0 <= w < cols.len() ==> s1.is_live(#[trigger] cols[w]),
                        0 <= q <= row.len(),
                        inner.head() == i,
                        matrix@ == s1.cover_all(cols.take(q)),
                    ensures
                        q == row.len(),
                    decreases row.len() - q,
                {
                    proof {
                        lemma_prefix_covered(s1, cols, q);
                        assert(matrix@.row_ok(i));
                        assert(matrix@.row_cells(i) == row);
                        if q > 0 {
                            assert(matrix@.is_content(row[q - 1]));
                        }
                    }
                    match inner.next(&matrix.vlinks) {
                        None => {
                            break ;
                        },
                        Some(j) => {
                            proof {
                                assert(j == row[q]);
                                assert(matrix@.is_content(row[q]));
                                assert(cols[q] == s1.headers[j.0 as int]);
                                assert(cols.take(q + 1).drop_last() =~= cols.take(q));
                                assert(cols.take(q + 1).last() == cols[q]);
                                let pre = cols.take(q);
                                assert(!pre.contains(cols[q])) by {
                                    if pre.contains(cols[q]) {
                                        let w = choose|w: int| 0 <= w < pre.len() && pre[w] == cols[q];
                                        assert(cols[w] == cols[q]);
                                    }
                                }
                            }
                            let h = matrix.headers[j.0];
                            matrix.cover(h);
                            proof {
                                q = q + 1;
                            }
                        },
                    }
                }
                proof {
                    assert(cols.take(q) =~= cols);
                    assert(matrix@ == s.cover(cell).cover_all(s.row_columns(i)));
                    assert(matrix@.live_columns().len() < live.len());
                }
                let ghost t = matrix@;
                let found = solve(matrix);
                n_answers = n_answers.saturating_add(found);
                let mut back = Cursor::from_head(i);
                loop
                    invariant_except_break
                        back.position() == (if q == row.len() { i } else { row[q] }),
                    invariant
                        s1.wf(),
                        s1.is_content(i),
                        row == s1.row_cells(i),
                        cols == s1.row_columns(i),
                        cols.len() == row.len(),
                        cols.no_duplicates(),
                        forall|w: int| 0 <= w < cols.len() ==> s1.is_live(#[trigger] cols[w]),
                        0 <= q <= row.len(),
                        back.head() == i,
                        matrix@ == s1.cover_all(cols.take(q)),
                    ensures
                        q == 0,
                    decreases q,
                {
                    proof {
                        lemma_prefix_covered(s1, cols, q);
                        assert(matrix@.row_ok(i));
                        assert(matrix@.row_cells(i) == row);
                        if q < row.len() {
                            assert(matrix@.is_content(row[q]));
                        }
                    }
                    match back.prev(&matrix.vlinks) {
                        None => {
                            break ;
                        },
                        Some(j) => {
                            proof {
                                assert(j == row[q - 1]);
                                assert(matrix@.is_content(row[q - 1]));
                                assert(cols[q - 1] == s1.headers[j.0 as int]);
                                assert(cols.take(q).drop_last() =~= cols.take(q - 1));
                                assert(cols.take(q).last() == cols[q - 1]);
                                lemma_prefix_covered(s1, cols, q - 1);
                                let before = s1.cover_all(cols.take(q - 1));
                                let pre = cols.take(q - 1);
                                assert(!pre.contains(cols[q - 1])) by {
                                    if pre.contains(cols[q - 1]) {
                                        let w = choose|w: int| 0 <= w < pre.len() && pre[w] == cols[q - 1];
                                        assert(cols[w] == cols[q - 1]);
                                    }
                                }
                                assert(before.is_live(cols[q - 1]));
                                lemma_cover(before, cols[q - 1]);
                            }
                            let h = matrix.headers[j.0];
                            matrix.uncover(h);
                            proof {
                                q = q - 1;
                            }
                        },
                    }
                }
                proof {
                    assert(cols.take(0) =~= Seq::<Cell>::empty());
                    lemma_count_is_exact(t);
                    lemma_depth(t, t.live_columns().len(), depth);
                    k = k + 1;
                }
            },
        }
    }
    matrix.uncover(cell);
    n_answers
}

/// After the first `q` of `cols` were covered the matrix is well formed and
/// the remaining ones are not covered yet.
proof fn lemma_prefix_covered(s: MatrixView, cols: Seq<Cell>, q: int)
    requires
        s.wf(),
        cols.no_duplicates(),
        forall|w: int| 0 <= w < cols.len() ==> s.is_live(#[trigger] cols[w]),
        0 <= q <= cols.len(),
    ensures
        s.cover_all(cols.take(q)).wf(),
        s.cover_all(cols.take(q)).headers == s.headers,
        s.cover_all(cols.take(q)).sizes.len() == s.sizes.len(),
        forall|h: Cell| s.cover_all(cols.take(q)).is_live(h) <==> (s.is_live(h) && !cols.take(q).contains(h)),
        forall|x: Cell| s.is_content(x) ==> #[trigger] s.cover_all(cols.take(q)).row_cells(x) == s.row_cells(x),
{
    let pre = cols.take(q);
    assert forall|w: int| 0 <= w < pre.len() implies s.is_live(#[trigger] pre[w]) by {
        assert(pre[w] == cols[w]);
    }
    lemma_cover_all(s, pre);
}

} // verus!
