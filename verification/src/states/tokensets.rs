use vstd::prelude::*;
use crate::settings::presets::common::{chars_of, is_blank, symbol_at};
use crate::shapes::Cell;

verus! {

/// What is known of one cell.
#[derive(Debug, PartialEq, Eq)]
pub enum CellState {
    /// The cell holds this symbol.
    Fixed(char),
    /// The cell is open and may still hold any of these symbols.
    Candidates(Vec<char>),
    /// The cell is open and nothing is noted for it.
    Empty,
}

/// The state of a cell as plain values.
pub enum CellStateView {
    Fixed(char),
    Candidates(Seq<char>),
    Empty,
}

impl View for CellState {
    type V = CellStateView;

    open spec fn view(&self) -> CellStateView {
        match *self {
            CellState::Fixed(symbol) => CellStateView::Fixed(symbol),
            CellState::Candidates(candidates) => CellStateView::Candidates(candidates@),
            CellState::Empty => CellStateView::Empty,
        }
    }
}

/// A copy of a list of symbols.
pub fn copy_symbols(symbols: &Vec<char>) -> (copy: Vec<char>)
    ensures
        copy@ == symbols@,
{
    let mut copy: Vec<char> = Vec::new();
    let mut i: usize = 0;
    while i < symbols.len()
        invariant
            i <= symbols@.len(),
            copy@ == symbols@.take(i as int),
        decreases symbols@.len() - i,
    {
        copy.push(symbols[i]);
        i += 1;
        assert(copy@ =~= symbols@.take(i as int));
    }
    assert(symbols@.take(i as int) =~= symbols@);
    copy
}

impl Clone for CellState {
    fn clone(&self) -> (copy: CellState)
        ensures
            copy@ == self@,
    {
        match self {
            CellState::Fixed(symbol) => CellState::Fixed(*symbol),
            CellState::Candidates(candidates) => CellState::Candidates(copy_symbols(candidates)),
            CellState::Empty => CellState::Empty,
        }
    }
}

/// The cells of a grid, line by line.
pub type CellGrid = Vec<Vec<CellState>>;

/// What is placed on one grid.
#[derive(Clone, Debug, PartialEq, Eq)]
pub enum Tokenset {
    Symbols(CellGrid),
}

/// A line of cells as plain values.
pub open spec fn line_view(line: Seq<CellState>) -> Seq<CellStateView> {
    Seq::new(line.len(), |x: int| line[x]@)
}

/// A grid of cells as plain values.
pub open spec fn grid_view(cells: Seq<Vec<CellState>>) -> Seq<Seq<CellStateView>> {
    Seq::new(cells.len(), |y: int| line_view(cells[y]@))
}

impl View for Tokenset {
    type V = Seq<Seq<CellStateView>>;

    open spec fn view(&self) -> Seq<Seq<CellStateView>> {
        match *self {
            Tokenset::Symbols(cells) => grid_view(cells@),
        }
    }
}

/// `cell` lies on the grid.
pub open spec fn cell_fits(grid: Seq<Seq<CellStateView>>, cell: Cell) -> bool {
    0 <= cell.1 < grid.len() && 0 <= cell.0 < grid[cell.1 as int].len()
}

/// What the grid holds at `cell`.
pub open spec fn state_at(grid: Seq<Seq<CellStateView>>, cell: Cell) -> CellStateView {
    grid[cell.1 as int][cell.0 as int]
}

/// What a drawn character says of its cell: a blank leaves it at `default`,
/// any other character is the symbol that the cell holds.
pub open spec fn drawn(symbol: char, default: CellStateView) -> CellStateView {
    if is_blank(symbol) {
        default
    } else {
        CellStateView::Fixed(symbol)
    }
}

/// The line of cells that a line of text draws.
pub open spec fn drawn_line(line: Seq<char>, default: CellStateView) -> Seq<CellStateView> {
    Seq::new(line.len(), |x: int| drawn(symbol_at(line, x), default))
}

/// Reads a grid of cells off lines of text, one character per cell: `.`
/// and the space leave the cell at `default`, any other character is the
/// symbol that the cell holds.
#[verifier::rlimit(50)]
pub fn symbolset(grid: &[String], default: CellState) -> (tokenset: Tokenset)
    ensures
        tokenset@.len() == grid@.len(),
        forall|y: int| 0 <= y < grid@.len() ==> #[trigger] tokenset@[y] == drawn_line(grid@[y]@, default@),
{
    let mut cells: Vec<Vec<CellState>> = Vec::new();
    let mut y: usize = 0;
    while y < grid.len()
        invariant
            y <= grid@.len(),
            cells@.len() == y,
            forall|k: int| 0 <= k < y ==> line_view((#[trigger] cells@[k])@) == drawn_line(grid@[k]@, default@),
        decreases grid@.len() - y,
    {
        let text = chars_of(grid[y].as_str());
        let mut line: Vec<CellState> = Vec::new();
        let mut x: usize = 0;
        while x < text.len()
            invariant
                x <= text@.len(),
                line@.len() == x,
                forall|k: int| 0 <= k < x ==> (#[trigger] line@[k])@ == drawn(symbol_at(text@, k), default@),
            decreases text@.len() - x,
        {
            let symbol = text[x];
            assert(symbol == symbol_at(text@, x as int));
            let cell = if symbol == '.' || symbol == ' ' {
                default.clone()
            } else {
                CellState::Fixed(symbol)
            };
            line.push(cell);
            x += 1;
        }
        assert(line_view(line@) =~= drawn_line(text@, default@));
        cells.push(line);
        y += 1;
    }
    let tokenset = Tokenset::Symbols(cells);
    assert forall|y: int| 0 <= y < grid@.len() implies #[trigger] tokenset@[y] == drawn_line(grid@[y]@, default@) by {
        assert(line_view(cells@[y]@) == drawn_line(grid@[y]@, default@));
    }
    tokenset
}

} // verus!
