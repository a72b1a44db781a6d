use vstd::prelude::*;
use crate::dancing_links::cells::Cell;
use crate::dancing_links::counting::{lemma_branch, lemma_cover_all, lemma_least, lemma_row_columns};
use crate::dancing_links::covering::{lemma_cover, lemma_row_mates};
use crate::dancing_links::exact::{after_choice, apart, branch_sum, can_cover, exact_covers, lemma_branching, lemma_no_row_fits};
use crate::dancing_links::matrix::MatrixView;
use crate::dancing_links::problem::{lemma_cover_active, lemma_cover_all_active, lemma_leader, lemma_leader_unique, lemma_row_fits, lemma_row_place, lemma_row_source, lemma_rows_apart, lemma_rows_below_grows, lemma_same_columns, misses_all};

verus! {

/// The sum, over the first `n` of `picks`, of what choosing the row at that
/// place leaves to count.
pub open spec fn pick_sum(rows: Seq<Set<Cell>>, columns: Set<Cell>, picks: Seq<int>, n: int) -> nat
    decreases n,
{
    if n <= 0 {
        0
    } else {
        pick_sum(rows, columns, picks, n - 1) + after_choice(rows, columns, picks[n - 1])
    }
}

impl MatrixView {
    /// The cell that leads the row of `x`.
    pub open spec fn leader_of(self, x: Cell) -> Cell {
        choose|l: Cell| self.is_content(l) && self.leads(l) && (l == x || self.row_cells(x).contains(l))
    }

    /// Where the row of `x` stands among the rows that can be chosen.
    pub open spec fn place(self, x: Cell) -> int {
        self.rows_below(self.leader_of(x).0 as int).len() as int
    }

    /// For each cell of column `c`, where its row stands among the rows
    /// that can be chosen.
    pub open spec fn picks(self, c: Cell) -> Seq<int> {
        Seq::new(self.column_cells(c).len(), |m: int| self.place(self.column_cells(c)[m]))
    }
}

/// Leaving one pick out takes its share off the sum.
proof fn lemma_pick_sum_without(rows: Seq<Set<Cell>>, columns: Set<Cell>, picks: Seq<int>, p: int, n: int)
    requires
        0 <= p < picks.len(),
        0 <= n <= picks.len(),
    ensures
        n <= p ==> pick_sum(rows, columns, picks.remove(p), n) == pick_sum(rows, columns, picks, n),
        n > p ==> pick_sum(rows, columns, picks.remove(p), n - 1) + after_choice(rows, columns, picks[p]) == pick_sum(
            rows,
            columns,
            picks,
            n,
        ),
    decreases n,
{
    if n > 0 {
        lemma_pick_sum_without(rows, columns, picks, p, n - 1);
        let short = picks.remove(p);
        if n <= p {
            assert(short[n - 1] == picks[n - 1]);
        } else if n - 1 > p {
            assert(short[n - 2] == picks[n - 1]);
        }
    }
}

/// A sum over picks that name, each once, just the rows below `n` that can
/// be chosen for column `c` is the sum over these rows in their order.
#[verifier::rlimit(50)]
proof fn lemma_rearranged(rows: Seq<Set<Cell>>, columns: Set<Cell>, c: Cell, picks: Seq<int>, n: int)
    requires
        0 <= n <= rows.len(),
        picks.no_duplicates(),
        forall|m: int| 0 <= m < picks.len() ==> 0 <= #[trigger] picks[m] < n && can_cover(rows, columns, c, picks[m]),
        forall|j: int| 0 <= j < n && can_cover(rows, columns, c, j) ==> picks.contains(j),
    ensures
        pick_sum(rows, columns, picks, picks.len() as int) == branch_sum(rows, rows, columns, c, n),
    decreases n,
{
    if n == 0 {
        if picks.len() > 0 {
            let first = picks[0];
            assert(0 <= first && first < n);
        }
    } else if can_cover(rows, columns, c, n - 1) {
        assert(picks.contains(n - 1));
        let p = choose|p: int| 0 <= p < picks.len() && picks[p] == n - 1;
        let short = picks.remove(p);
        assert forall|m: int| 0 <= m < short.len() implies 0 <= #[trigger] short[m] < n - 1 && can_cover(
            rows,
            columns,
            c,
            short[m],
        ) by {
            let mm = if m < p { m } else { m + 1 };
            assert(short[m] == picks[mm]);
            assert(picks[mm] != picks[p]);
        }
        assert(short.no_duplicates()) by {
            assert forall|a: int, b: int| 0 <= a < short.len() && 0 <= b < short.len() && a != b implies short[a]
                != short[b] by {
                let aa = if a < p { a } else { a + 1 };
                let bb = if b < p { b } else { b + 1 };
                assert(short[a] == picks[aa] && short[b] == picks[bb]);
            }
        }
        assert forall|j: int| 0 <= j < n - 1 && can_cover(rows, columns, c, j) implies short.contains(j) by {
            assert(picks.contains(j));
            let w = choose|w: int| 0 <= w < picks.len() && picks[w] == j;
            let ww = if w < p { w } else { w - 1 };
            assert(short[ww] == j);
        }
        lemma_rearranged(rows, columns, c, short, n - 1);
        lemma_pick_sum_without(rows, columns, picks, p, picks.len() as int);
    } else {
        assert forall|m: int| 0 <= m < picks.len() implies 0 <= #[trigger] picks[m] < n - 1 && can_cover(
            rows,
            columns,
            c,
            picks[m],
        ) by {}
        lemma_rearranged(rows, columns, c, picks, n - 1);
    }
}

/// The row of a cell in play stands among the rows that can be chosen, as
/// the columns of the cell.
#[verifier::rlimit(50)]
pub proof fn lemma_place(s: MatrixView, y: Cell)
    requires
        s.wf(),
        s.is_content(y),
        s.is_active(y),
    ensures
        s.is_content(s.leader_of(y)),
        s.leads(s.leader_of(y)),
        s.is_active(s.leader_of(y)),
        s.leader_of(y) == y || s.row_cells(y).contains(s.leader_of(y)),
        0 <= s.place(y) < s.open_rows().len(),
        s.open_rows()[s.place(y)] == s.columns_of(y),
{
    let found = lemma_leader(s, y);
    let l = s.leader_of(y);
    assert(s.is_content(l) && s.leads(l) && (l == y || s.row_cells(y).contains(l)));
    if l != y {
        lemma_same_columns(s, y, l);
        assert(s.row_active(y));
        let w = choose|w: int| 0 <= w < s.row_cells(y).len() && s.row_cells(y)[w] == l;
        assert(s.is_active(s.row_cells(y)[w]));
    }
    lemma_row_place(s, l);
}

/// Every cell of the row that `x` leads stands where the row of `x` stands.
#[verifier::rlimit(50)]
pub proof fn lemma_place_of_mate(s: MatrixView, x: Cell, y: Cell)
    requires
        s.wf(),
        s.is_content(x),
        s.leads(x),
        y == x || s.row_cells(x).contains(y),
    ensures
        s.leader_of(y) == x,
{
    assert(s.row_ok(x));
    if y != x {
        lemma_row_mates(s, x, y);
    }
    assert(s.is_content(y));
    let found = lemma_leader(s, y);
    let l = s.leader_of(y);
    assert(s.is_content(l) && s.leads(l) && (l == y || s.row_cells(y).contains(l)));
    if l != x {
        if y == x {
            lemma_row_mates(s, x, l);
        } else if l == y {
        } else {
            assert(s.row_cells(x).contains(l));
            lemma_row_mates(s, x, l);
        }
        lemma_leader_unique(s, l, x);
    }
}

/// What one branch of the search is left with: the columns that the chosen
/// row does not stand in, and the rows that share no column with it.
#[verifier::rlimit(50)]
pub proof fn lemma_branch_view(s: MatrixView, c: Cell, k: int)
    requires
        s.wf(),
        s.is_live(c),
        0 <= k < s.column_cells(c).len(),
    ensures
        ({
            let i = s.column_cells(c)[k];
            let t = s.cover(c).cover_all(s.row_columns(i));
            &&& s.is_content(i)
            &&& s.is_active(i)
            &&& s.headers[i.0 as int] == c
            &&& t.wf()
            &&& t.live_columns().len() < s.live_columns().len()
            &&& t.open_columns() == s.open_columns().difference(s.columns_of(i))
            &&& t.open_rows() == apart(s.open_rows(), s.columns_of(i))
        }),
{
    let col = s.column_cells(c);
    let i = col[k];
    let s1 = s.cover(c);
    let rc = s.row_columns(i);
    let t = s1.cover_all(rc);
    let taken = s.columns_of(i);
    lemma_cover(s, c);
    assert(s.column_ok(c));
    assert(s.is_content(i) && s.headers[i.0 as int] == c);
    assert(col.contains(i));
    lemma_branch(s, c, k);
    lemma_row_columns(s, c, k);
    lemma_cover_active(s, c);
    lemma_cover_all(s1, rc);
    lemma_cover_all_active(s1, rc);
    assert forall|h: Cell| t.open_columns().contains(h) <==> s.open_columns().difference(taken).contains(h) by {
        assert(t.is_live(h) <==> (s1.is_live(h) && !rc.contains(h)));
        assert(s1.is_live(h) <==> (s.is_live(h) && h != c));
    }
    assert(t.open_columns() =~= s.open_columns().difference(taken));
    assert forall|x: Cell| s.is_content(x) implies (#[trigger] t.is_active(x) <==> s.is_active(x) && s.columns_of(
        x,
    ).disjoint(taken)) by {
        assert(s1.is_content(x));
        assert(s1.columns_of(x) == s.columns_of(x));
        assert(t.is_active(x) <==> s1.is_active(x) && misses_all(rc, s.columns_of(x)));
        assert(s1.is_active(x) <==> s.is_active(x) && !s.columns_of(x).contains(c));
        let mine = s.columns_of(x);
        if mine.disjoint(taken) {
            assert(taken.contains(c));
            assert forall|q: int| 0 <= q < rc.len() implies !mine.contains(#[trigger] rc[q]) by {
                assert(rc.contains(rc[q]));
                assert(taken.contains(rc[q]));
            }
        }
        if !mine.contains(c) && misses_all(rc, mine) {
            assert forall|h: Cell| mine.contains(h) implies !taken.contains(h) by {
                if taken.contains(h) && h != c {
                    let q = choose|q: int| 0 <= q < rc.len() && rc[q] == h;
                    assert(!mine.contains(rc[q]));
                }
            }
        }
    }
    assert forall|x: Cell| s.is_content(x) implies #[trigger] t.leads(x) == s.leads(x) by {
        assert(s1.is_content(x));
        assert(s1.leads(x) == s.leads(x));
    }
    assert forall|x: Cell| s.is_content(x) implies #[trigger] t.columns_of(x) == s.columns_of(x) by {
        assert(s1.is_content(x));
        assert(s1.columns_of(x) == s.columns_of(x));
    }
    lemma_rows_apart(s, t, taken, s.headers.len() as int);
}

/// The search counts the exact covers: of the columns that are not covered,
/// by the rows that can still be chosen.
#[verifier::rlimit(50)]
pub proof fn lemma_count_exact(s: MatrixView, depth: nat)
    requires
        s.wf(),
        depth >= s.live_columns().len(),
    ensures
        s.count_within(depth) == exact_covers(s.open_rows(), s.open_columns()),
    decreases s.live_columns().len(), 1nat, 0nat,
{
    let rows = s.open_rows();
    let columns = s.open_columns();
    let live = s.live_columns();
    if live.len() == 0 {
        assert(columns =~= Set::<Cell>::empty());
        assert forall|j: int| 0 <= j < rows.len() implies !(#[trigger] rows[j]).subset_of(columns) by {
            let x = lemma_row_source(s, s.headers.len() as int, j);
            lemma_row_fits(s, x);
        }
        lemma_no_row_fits(rows, columns);
    } else {
        let c = s.pick();
        lemma_least(s.sizes, live);
        let col = s.column_cells(c);
        let picks = s.picks(c);
        lemma_branches_exact(s, c, col.len(), (depth - 1) as nat);
        lemma_cover(s, c);
        assert(s.column_ok(c));
        assert forall|m: int| 0 <= m < picks.len() implies 0 <= #[trigger] picks[m] < rows.len() && can_cover(
            rows,
            columns,
            c,
            picks[m],
        ) by {
            let i = col[m];
            assert(s.is_content(i) && s.headers[i.0 as int] == c);
            assert(col.contains(i));
            lemma_place(s, i);
            lemma_row_fits(s, i);
        }
        assert(picks.no_duplicates()) by {
            assert forall|a: int, b: int| 0 <= a < picks.len() && 0 <= b < picks.len() && a != b implies picks[a]
                != picks[b] by {
                lemma_picks_differ(s, c, a, b);
            }
        }
        assert forall|j: int| 0 <= j < rows.len() && can_cover(rows, columns, c, j) implies picks.contains(j) by {
            lemma_pick_exists(s, c, j);
        }
        lemma_rearranged(rows, columns, c, picks, rows.len() as int);
        lemma_branching(rows, columns, c);
    }
}

/// Two cells of a column stand in rows at different places.
#[verifier::rlimit(50)]
proof fn lemma_picks_differ(s: MatrixView, c: Cell, a: int, b: int)
    requires
        s.wf(),
        s.is_live(c),
        0 <= a < s.column_cells(c).len(),
        0 <= b < s.column_cells(c).len(),
        a != b,
    ensures
        s.picks(c)[a] != s.picks(c)[b],
{
    let col = s.column_cells(c);
    lemma_cover(s, c);
    assert(s.column_ok(c));
    let x = col[a];
    let y = col[b];
    assert(s.is_content(x) && s.headers[x.0 as int] == c);
    assert(s.is_content(y) && s.headers[y.0 as int] == c);
    assert(col.contains(x) && col.contains(y));
    assert(x != y);
    lemma_place(s, x);
    lemma_place(s, y);
    let lx = s.leader_of(x);
    let ly = s.leader_of(y);
    if s.place(x) == s.place(y) {
        if lx.0 < ly.0 {
            assert(Cell(((lx.0 + 1) - 1) as usize) == lx);
            lemma_rows_below_grows(s, lx.0 + 1, ly.0 as int);
        } else if ly.0 < lx.0 {
            assert(Cell(((ly.0 + 1) - 1) as usize) == ly);
            lemma_rows_below_grows(s, ly.0 + 1, lx.0 as int);
        } else {
            assert(lx == ly);
            // both cells stand in the row that `lx` leads, in the same column
            assert(s.row_ok(x));
            assert(s.row_ok(y));
            if lx == x {
                assert(s.row_cells(y).contains(x));
                let w = choose|w: int| 0 <= w < s.row_cells(y).len() && s.row_cells(y)[w] == x;
                assert(s.headers[s.row_cells(y)[w].0 as int] != s.headers[y.0 as int]);
            } else if lx == y {
                assert(s.row_cells(x).contains(y));
                let w = choose|w: int| 0 <= w < s.row_cells(x).len() && s.row_cells(x)[w] == y;
                assert(s.headers[s.row_cells(x)[w].0 as int] != s.headers[x.0 as int]);
            } else {
                lemma_row_mates(s, x, lx);
                assert(s.row_cells(lx).contains(x));
                lemma_row_mates(s, y, lx);
                assert(s.row_cells(lx).contains(y));
                assert(s.row_cells(x).contains(y));
                let w = choose|w: int| 0 <= w < s.row_cells(x).len() && s.row_cells(x)[w] == y;
                assert(s.headers[s.row_cells(x)[w].0 as int] != s.headers[x.0 as int]);
            }
        }
    }
}

/// A row that can be chosen for column `c` has a cell in the column, and
/// that cell stands where the row stands.
#[verifier::rlimit(50)]
proof fn lemma_pick_exists(s: MatrixView, c: Cell, j: int)
    requires
        s.wf(),
        s.is_live(c),
        0 <= j < s.open_rows().len(),
        s.open_rows()[j].contains(c),
    ensures
        s.picks(c).contains(j),
{
    let col = s.column_cells(c);
    lemma_cover(s, c);
    assert(s.column_ok(c));
    let x = lemma_row_source(s, s.headers.len() as int, j);
    assert(s.row_active(x));
    assert(s.row_ok(x));
    let row = s.row_cells(x);
    let y = if s.headers[x.0 as int] == c {
        x
    } else {
        let q = choose|q: int| 0 <= q < s.row_columns(x).len() && s.row_columns(x)[q] == c;
        assert(s.is_active(row[q]));
        assert(s.is_content(row[q]));
        assert(row.contains(row[q]));
        row[q]
    };
    assert(s.is_content(y) && s.is_active(y) && s.headers[y.0 as int] == c);
    assert(col.contains(y));
    let m = choose|m: int| 0 <= m < col.len() && col[m] == y;
    lemma_place_of_mate(s, x, y);
    assert(s.picks(c)[m] == j);
}

/// The sum over the branches for the first `k` cells of a column is the sum
/// of what choosing their rows leaves to count.
pub proof fn lemma_branches_exact(s: MatrixView, c: Cell, k: nat, depth: nat)
    requires
        s.wf(),
        s.is_live(c),
        k <= s.column_cells(c).len(),
        depth + 1 >= s.live_columns().len(),
    ensures
        s.cover(c).branches(c, k, depth) == pick_sum(s.open_rows(), s.open_columns(), s.picks(c), k as int),
    decreases s.live_columns().len(), 0nat, k,
{
    if k > 0 {
        lemma_branches_exact(s, c, (k - 1) as nat, depth);
        lemma_branch(s, c, k - 1);
        lemma_branch_view(s, c, k - 1);
        let i = s.column_cells(c)[k - 1];
        let t = s.cover(c).cover_all(s.row_columns(i));
        lemma_count_exact(t, depth);
        lemma_place(s, i);
        assert(s.picks(c)[k - 1] == s.place(i));
    }
}

/// The count of the search is the number of exact covers.
pub proof fn lemma_count_is_exact(s: MatrixView)
    requires
        s.wf(),
    ensures
        s.count() == exact_covers(s.open_rows(), s.open_columns()),
{
    lemma_count_exact(s, s.live_columns().len());
}

} // verus!
