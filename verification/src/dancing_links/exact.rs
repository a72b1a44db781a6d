use vstd::prelude::*;
use crate::dancing_links::cells::Cell;

verus! {

/// The number of exact covers of `columns` by `rows`: the ways to choose
/// some of the rows, each at most once, such that every column of `columns`
/// lies in exactly one chosen row and no chosen row holds anything else.
/// The last row is either left out, or chosen, where it fits, for what
/// remains of the columns.
pub open spec fn exact_covers(rows: Seq<Set<Cell>>, columns: Set<Cell>) -> nat
    decreases rows.len(),
{
    if rows.len() == 0 {
        if columns == Set::<Cell>::empty() {
            1
        } else {
            0
        }
    } else {
        exact_covers(rows.drop_last(), columns) + (if rows.last().subset_of(columns) {
            exact_covers(rows.drop_last(), columns.difference(rows.last()))
        } else {
            0
        })
    }
}

/// The rows that share no column with `row`, in their order.
pub open spec fn apart(rows: Seq<Set<Cell>>, row: Set<Cell>) -> Seq<Set<Cell>>
    decreases rows.len(),
{
    if rows.len() == 0 {
        Seq::empty()
    } else if rows.last().disjoint(row) {
        apart(rows.drop_last(), row).push(rows.last())
    } else {
        apart(rows.drop_last(), row)
    }
}

/// What choosing row `j` leaves to count: the exact covers of the other
/// columns by the rows that share no column with it.
pub open spec fn after_choice(rows: Seq<Set<Cell>>, columns: Set<Cell>, j: int) -> nat {
    exact_covers(apart(rows, rows[j]), columns.difference(rows[j]))
}

/// Row `j` can be chosen to cover column `c`.
pub open spec fn can_cover(rows: Seq<Set<Cell>>, columns: Set<Cell>, c: Cell, j: int) -> bool {
    rows[j].contains(c) && rows[j].subset_of(columns)
}

/// The sum, over those of the first `n` of `rows` that can be chosen to
/// cover column `c`, of what the choice leaves to count among `all`.
pub open spec fn branch_sum(rows: Seq<Set<Cell>>, all: Seq<Set<Cell>>, columns: Set<Cell>, c: Cell, n: int) -> nat
    decreases n,
{
    if n <= 0 {
        0
    } else {
        branch_sum(rows, all, columns, c, n - 1) + (if can_cover(rows, columns, c, n - 1) {
            exact_covers(apart(all, rows[n - 1]), columns.difference(rows[n - 1]))
        } else {
            0
        })
    }
}

/// Rows that share a column with a set outside of `columns` take no part in
/// any exact cover of `columns`.
pub proof fn lemma_apart_counts(rows: Seq<Set<Cell>>, columns: Set<Cell>, outside: Set<Cell>)
    requires
        outside.disjoint(columns),
    ensures
        exact_covers(rows, columns) == exact_covers(apart(rows, outside), columns),
    decreases rows.len(),
{
    if rows.len() > 0 {
        let rest = rows.drop_last();
        let row = rows.last();
        lemma_apart_counts(rest, columns, outside);
        if row.disjoint(outside) {
            assert(apart(rows, outside).drop_last() =~= apart(rest, outside));
            assert(apart(rows, outside).last() == row);
            if row.subset_of(columns) {
                assert(outside.disjoint(columns.difference(row)));
                lemma_apart_counts(rest, columns.difference(row), outside);
            }
        } else {
            let shared = choose|h: Cell| row.contains(h) && outside.contains(h);
            assert(!columns.contains(shared));
            assert(!row.subset_of(columns));
        }
    }
}

/// Where no row fits into `columns`, only nothing can be covered, and that
/// in one way.
pub proof fn lemma_no_row_fits(rows: Seq<Set<Cell>>, columns: Set<Cell>)
    requires
        forall|j: int| 0 <= j < rows.len() ==> !(#[trigger] rows[j]).subset_of(columns),
    ensures
        exact_covers(rows, columns) == (if columns == Set::<Cell>::empty() { 1nat } else { 0nat }),
    decreases rows.len(),
{
    if rows.len() > 0 {
        let rest = rows.drop_last();
        assert forall|j: int| 0 <= j < rest.len() implies !(#[trigger] rest[j]).subset_of(columns) by {
            assert(rest[j] == rows[j]);
        }
        lemma_no_row_fits(rest, columns);
        assert(!rows[rows.len() - 1].subset_of(columns));
    }
}

/// The sum over the first `n` rows does not look at the rows behind them.
proof fn lemma_branch_sum_prefix(
    rows: Seq<Set<Cell>>,
    row: Set<Cell>,
    all: Seq<Set<Cell>>,
    columns: Set<Cell>,
    c: Cell,
    n: int,
)
    requires
        0 <= n <= rows.len(),
    ensures
        branch_sum(rows.push(row), all, columns, c, n) == branch_sum(rows, all, columns, c, n),
    decreases n,
{
    if n > 0 {
        lemma_branch_sum_prefix(rows, row, all, columns, c, n - 1);
        assert(rows.push(row)[n - 1] == rows[n - 1]);
    }
}

/// What one more row among `all` adds to the sum over the first `n` rows:
/// where the row fits into `columns` and does not hold `c`, the same sum
/// for the columns that the row leaves.
#[verifier::rlimit(50)]
proof fn lemma_branch_sum_split(rows: Seq<Set<Cell>>, row: Set<Cell>, columns: Set<Cell>, c: Cell, n: int)
    requires
        0 <= n <= rows.len(),
    ensures
        branch_sum(rows, rows.push(row), columns, c, n) == branch_sum(rows, rows, columns, c, n) + (if row.subset_of(
            columns,
        ) && !row.contains(c) {
            branch_sum(rows, rows, columns.difference(row), c, n)
        } else {
            0
        }),
    decreases n,
{
    if n > 0 {
        lemma_branch_sum_split(rows, row, columns, c, n - 1);
        let all = rows.push(row);
        let chosen = rows[n - 1];
        let left = columns.difference(chosen);
        let narrow = columns.difference(row);
        assert(all.drop_last() =~= rows);
        assert(all.last() == row);
        let kept = apart(rows, chosen);
        if row.disjoint(chosen) {
            assert(apart(all, chosen) == kept.push(row));
            assert(kept.push(row).drop_last() =~= kept);
            assert(kept.push(row).last() == row);
            assert(exact_covers(kept.push(row), left) == exact_covers(kept, left) + (if row.subset_of(left) {
                exact_covers(kept, left.difference(row))
            } else {
                0
            }));
        } else {
            assert(apart(all, chosen) == kept);
        }
        if can_cover(rows, columns, c, n - 1) {
            if row.contains(c) {
                assert(!row.disjoint(chosen));
            } else if row.subset_of(columns) {
                if row.disjoint(chosen) {
                    assert(row.subset_of(left));
                    assert(chosen.subset_of(narrow));
                    assert(left.difference(row) =~= narrow.difference(chosen));
                } else {
                    let shared = choose|h: Cell| row.contains(h) && chosen.contains(h);
                    assert(!narrow.contains(shared));
                    assert(!chosen.subset_of(narrow));
                }
            } else {
                if row.disjoint(chosen) {
                    let missing = choose|h: Cell| row.contains(h) && !columns.contains(h);
                    assert(!left.contains(missing));
                    assert(!row.subset_of(left));
                }
            }
        } else {
            if row.subset_of(columns) && !row.contains(c) {
                if chosen.contains(c) {
                    let missing = choose|h: Cell| chosen.contains(h) && !columns.contains(h);
                    assert(!narrow.contains(missing));
                    assert(!chosen.subset_of(narrow));
                }
            }
        }
    }
}

/// Every exact cover chooses exactly one row for column `c`: the number of
/// exact covers is the sum, over the rows that can be chosen for `c`, of
/// the exact covers of the remaining columns by the rows that share no
/// column with the chosen one.
pub proof fn lemma_branching(rows: Seq<Set<Cell>>, columns: Set<Cell>, c: Cell)
    requires
        columns.contains(c),
    ensures
        exact_covers(rows, columns) == branch_sum(rows, rows, columns, c, rows.len() as int),
    decreases rows.len(),
{
    if rows.len() == 0 {
        assert(columns != Set::<Cell>::empty());
    } else {
        let rest = rows.drop_last();
        let row = rows.last();
        let n = rest.len() as int;
        assert(rest.push(row) =~= rows);
        lemma_branching(rest, columns, c);
        lemma_branch_sum_prefix(rest, row, rows, columns, c, n);
        lemma_branch_sum_split(rest, row, columns, c, n);
        assert(rows[n] == row);
        if row.contains(c) {
            if row.subset_of(columns) {
                assert(!row.disjoint(row));
                assert(apart(rows, row) == apart(rest, row));
                assert(row.disjoint(columns.difference(row)));
                lemma_apart_counts(rest, columns.difference(row), row);
            }
        } else if row.subset_of(columns) {
            assert(columns.difference(row).contains(c));
            lemma_branching(rest, columns.difference(row), c);
        }
    }
}

} // verus!
