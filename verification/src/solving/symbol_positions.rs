use vstd::prelude::*;
use crate::settings::presets::common::symbol_at;
use crate::shapes::{Cell, Region};
use crate::states::status::region_fits;
use crate::states::tokensets::{CellState, CellStateView, cell_fits, grid_view, line_view, state_at};

verus! {

/// For each symbol the cells where it stands: pairs of a symbol and its
/// cells, no symbol and no cell of a symbol named twice, both in the order
/// in which they were first met.
pub type SymbolPositions = Vec<(char, Vec<Cell>)>;

/// A list of positions as plain values.
pub open spec fn positions_view(map: Seq<(char, Vec<Cell>)>) -> Seq<(char, Seq<Cell>)> {
    Seq::new(map.len(), |i: int| (map[i].0, map[i].1@))
}

/// The cells with `cell` among them: behind the others if it is new.
pub open spec fn added(cells: Seq<Cell>, cell: Cell) -> Seq<Cell> {
    if cells.contains(cell) {
        cells
    } else {
        cells.push(cell)
    }
}

/// The list with `cell` noted for `symbol`: among the cells of the symbol
/// if the list knows the symbol, else as a new entry behind the others.
pub open spec fn noted(map: Seq<(char, Seq<Cell>)>, symbol: char, cell: Cell) -> Seq<(char, Seq<Cell>)>
    decreases map.len(),
{
    if map.len() == 0 {
        seq![(symbol, seq![cell])]
    } else if map[0].0 == symbol {
        seq![(symbol, added(map[0].1, cell))] + map.drop_first()
    } else {
        seq![map[0]] + noted(map.drop_first(), symbol, cell)
    }
}

/// The list with `cell` noted for each of the first `k` of `symbols`.
pub open spec fn noted_each(map: Seq<(char, Seq<Cell>)>, symbols: Seq<char>, cell: Cell, k: int) -> Seq<
    (char, Seq<Cell>),
>
    decreases k,
{
    if k <= 0 {
        map
    } else {
        noted(noted_each(map, symbols, cell, k - 1), symbol_at(symbols, k - 1), cell)
    }
}

/// Where the symbols stand that the first `n` cells of the region hold.
pub open spec fn fixed_positions(grid: Seq<Seq<CellStateView>>, region: Seq<Cell>, n: int) -> Seq<
    (char, Seq<Cell>),
>
    decreases n,
{
    if n <= 0 {
        Seq::empty()
    } else {
        let front = fixed_positions(grid, region, n - 1);
        match state_at(grid, region[n - 1]) {
            CellStateView::Fixed(value) => noted(front, value, region[n - 1]),
            _ => front,
        }
    }
}

/// Where the symbols may stand that the first `n` cells of the region list
/// as candidates.
pub open spec fn candidate_positions(grid: Seq<Seq<CellStateView>>, region: Seq<Cell>, n: int) -> Seq<
    (char, Seq<Cell>),
>
    decreases n,
{
    if n <= 0 {
        Seq::empty()
    } else {
        let front = candidate_positions(grid, region, n - 1);
        match state_at(grid, region[n - 1]) {
            CellStateView::Candidates(candidates) => noted_each(
                front,
                candidates,
                region[n - 1],
                candidates.len() as int,
            ),
            _ => front,
        }
    }
}

/// Every cell that the list names lies on the grid.
pub open spec fn on_grid(map: Seq<(char, Seq<Cell>)>, grid: Seq<Seq<CellStateView>>) -> bool {
    forall|i: int, k: int| 0 <= i < map.len() && 0 <= k < map[i].1.len() ==> cell_fits(grid, #[trigger] map[i].1[k])
}

/// Noting a cell of the grid keeps the list on the grid.
#[verifier::rlimit(50)]
pub proof fn lemma_noted_on_grid(map: Seq<(char, Seq<Cell>)>, symbol: char, cell: Cell, grid: Seq<Seq<CellStateView>>)
    requires
        on_grid(map, grid),
        cell_fits(grid, cell),
    ensures
        on_grid(noted(map, symbol, cell), grid),
    decreases map.len(),
{
    let out = noted(map, symbol, cell);
    if map.len() == 0 {
    } else if map[0].0 == symbol {
        assert forall|i: int, k: int| 0 <= i < out.len() && 0 <= k < out[i].1.len() implies cell_fits(
            grid,
            #[trigger] out[i].1[k],
        ) by {
            if i == 0 {
                if k < map[0].1.len() {
                    assert(cell_fits(grid, map[0].1[k]));
                }
            } else {
                assert(out[i] == map[i]);
                assert(cell_fits(grid, map[i].1[k]));
            }
        }
    } else {
        let rest = map.drop_first();
        assert(on_grid(rest, grid)) by {
            assert forall|i: int, k: int| 0 <= i < rest.len() && 0 <= k < rest[i].1.len() implies cell_fits(
                grid,
                #[trigger] rest[i].1[k],
            ) by {
                assert(rest[i] == map[i + 1]);
                assert(cell_fits(grid, map[i + 1].1[k]));
            }
        }
        lemma_noted_on_grid(rest, symbol, cell, grid);
        let tail = noted(rest, symbol, cell);
        assert forall|i: int, k: int| 0 <= i < out.len() && 0 <= k < out[i].1.len() implies cell_fits(
            grid,
            #[trigger] out[i].1[k],
        ) by {
            if i == 0 {
                assert(out[0] == map[0]);
                assert(cell_fits(grid, map[0].1[k]));
            } else {
                assert(out[i] == tail[i - 1]);
                assert(cell_fits(grid, tail[i - 1].1[k]));
            }
        }
    }
}

/// No entry before `i` is about `symbol`, so noting for it is noting in
/// what follows.
#[verifier::rlimit(50)]
proof fn lemma_noted_at(map: Seq<(char, Seq<Cell>)>, symbol: char, cell: Cell, i: int)
    requires
        0 <= i <= map.len(),
        forall|j: int| 0 <= j < i ==> (#[trigger] map[j]).0 != symbol,
    ensures
        i < map.len() && map[i].0 == symbol ==> noted(map, symbol, cell) == map.update(
            i,
            (symbol, added(map[i].1, cell)),
        ),
        i == map.len() ==> noted(map, symbol, cell) == map.push((symbol, seq![cell])),
    decreases i,
{
    if i == 0 {
        if map.len() > 0 && map[0].0 == symbol {
            assert(seq![(symbol, added(map[0].1, cell))] + map.drop_first() =~= map.update(
                0,
                (symbol, added(map[0].1, cell)),
            ));
        }
        if map.len() == 0 {
            assert(seq![(symbol, seq![cell])] =~= map.push((symbol, seq![cell])));
        }
    } else {
        let rest = map.drop_first();
        assert(map[0].0 != symbol);
        assert forall|j: int| 0 <= j < i - 1 implies (#[trigger] rest[j]).0 != symbol by {
            assert(rest[j] == map[j + 1]);
        }
        lemma_noted_at(rest, symbol, cell, i - 1);
        if i < map.len() && map[i].0 == symbol {
            assert(rest[i - 1] == map[i]);
            assert(seq![map[0]] + rest.update(i - 1, (symbol, added(map[i].1, cell))) =~= map.update(
                i,
                (symbol, added(map[i].1, cell)),
            ));
        }
        if i == map.len() {
            assert(seq![map[0]] + rest.push((symbol, seq![cell])) =~= map.push((symbol, seq![cell])));
        }
    }
}

/// `cells` holds `cell`.
pub fn holds_cell(cells: &Vec<Cell>, cell: &Cell) -> (found: bool)
    ensures
        found == cells@.contains(*cell),
{
    let mut k: usize = 0;
    while k < cells.len()
        invariant
            k <= cells@.len(),
            forall|i: int| 0 <= i < k ==> cells@[i] != *cell,
        decreases cells@.len() - k,
    {
        if cells[k].0 == cell.0 && cells[k].1 == cell.1 {
            return true;
        }
        k += 1;
    }
    false
}

/// Notes `cell` for `symbol`.
pub fn note(map: &mut SymbolPositions, symbol: char, cell: &Cell)
    ensures
        positions_view(final(map)@) == noted(positions_view(old(map)@), symbol, *cell),
{
    let ghost before = positions_view(map@);
    let mut i: usize = 0;
    while i < map.len()
        invariant
            i <= map@.len(),
            map@ == old(map)@,
            before == positions_view(map@),
            forall|j: int| 0 <= j < i ==> (#[trigger] before[j]).0 != symbol,
        decreases map@.len() - i,
    {
        if map[i].0 == symbol {
            proof {
                lemma_noted_at(before, symbol, *cell, i as int);
            }
            if !holds_cell(&map[i].1, cell) {
                map[i].1.push(*cell);
            }
            assert(positions_view(map@) =~= before.update(i as int, (symbol, added(before[i as int].1, *cell))));
            return ;
        }
        assert(before[i as int].0 == map@[i as int].0);
        i += 1;
    }
    proof {
        lemma_noted_at(before, symbol, *cell, i as int);
    }
    let mut cells: Vec<Cell> = Vec::new();
    cells.push(*cell);
    map.push((symbol, cells));
    assert(positions_view(map@) =~= before.push((symbol, seq![*cell])));
}

/// Goes through the cells of a region and notes where each symbol stands
/// and where each symbol may still stand. The first list is about the
/// symbols that cells hold, the second about the candidates of open cells.
#[verifier::rlimit(50)]
pub fn symbol_positions(cells: &Vec<Vec<CellState>>, region: &Region) -> (found: (SymbolPositions, SymbolPositions))
    requires
        region_fits(grid_view(cells@), region@),
    ensures
        positions_view(found.0@) == fixed_positions(grid_view(cells@), region@, region@.len() as int),
        positions_view(found.1@) == candidate_positions(grid_view(cells@), region@, region@.len() as int),
        on_grid(positions_view(found.0@), grid_view(cells@)),
        on_grid(positions_view(found.1@), grid_view(cells@)),
{
    let ghost grid = grid_view(cells@);
    let mut set_positions: SymbolPositions = Vec::new();
    let mut candidate_positions: SymbolPositions = Vec::new();
    assert(positions_view(set_positions@) =~= Seq::empty());
    assert(positions_view(candidate_positions@) =~= Seq::empty());
    let mut n: usize = 0;
    while n < region.cells.len()
        invariant
            n <= region@.len(),
            grid == grid_view(cells@),
            region_fits(grid, region@),
            positions_view(set_positions@) == fixed_positions(grid, region@, n as int),
            positions_view(candidate_positions@) == self::candidate_positions(grid, region@, n as int),
            on_grid(positions_view(set_positions@), grid),
            on_grid(positions_view(candidate_positions@), grid),
        decreases region@.len() - n,
    {
        let cell = &region.cells[n];
        assert(cell_fits(grid, region@[n as int]));
        assert(grid[cell.1 as int] == line_view(cells@[cell.1 as int]@));
        match &cells[cell.1 as usize][cell.0 as usize] {
            CellState::Fixed(value) => {
                proof {
                    lemma_noted_on_grid(positions_view(set_positions@), *value, *cell, grid);
                }
                note(&mut set_positions, *value, cell);
            },
            CellState::Candidates(candidates) => {
                let ghost before = positions_view(candidate_positions@);
                let mut k: usize = 0;
                while k < candidates.len()
                    invariant
                        k <= candidates@.len(),
                        cell_fits(grid, *cell),
                        on_grid(positions_view(candidate_positions@), grid),
                        positions_view(candidate_positions@) == noted_each(before, candidates@, *cell, k as int),
                    decreases candidates@.len() - k,
                {
                    let candidate = candidates[k];
                    assert(candidate == symbol_at(candidates@, k as int));
                    proof {
                        lemma_noted_on_grid(positions_view(candidate_positions@), candidate, *cell, grid);
                    }
                    note(&mut candidate_positions, candidate, cell);
                    k += 1;
                }
            },
            CellState::Empty => (),
        }
        n += 1;
    }
    (set_positions, candidate_positions)
}

} // verus!
