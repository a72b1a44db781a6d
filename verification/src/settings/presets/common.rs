use vstd::prelude::*;
use crate::settings::rules::GivenSymbol;
use crate::shapes::Cell;

verus! {

/// `symbol` stands for an empty cell.
pub open spec fn is_blank(symbol: char) -> bool {
    symbol == '.' || symbol == ' '
}

/// The character at place `i` of a line.
pub open spec fn symbol_at(line: Seq<char>, i: int) -> char {
    line[i]
}

/// The givens of one line of a drawn grid, left to right.
pub open spec fn line_givens(line: Seq<char>, row: int) -> Seq<GivenSymbol>
    decreases line.len(),
{
    if line.len() == 0 {
        Seq::empty()
    } else {
        let front = line_givens(line.drop_last(), row);
        let symbol = symbol_at(line, line.len() - 1);
        if is_blank(symbol) {
            front
        } else {
            front.push(GivenSymbol { symbol, cell: Cell((line.len() - 1) as isize, row as isize) })
        }
    }
}

/// The givens of the first `n` lines of a drawn grid, line after line.
pub open spec fn grid_givens(lines: Seq<String>, n: int) -> Seq<GivenSymbol>
    decreases n,
{
    if n <= 0 {
        Seq::empty()
    } else {
        grid_givens(lines, n - 1) + line_givens(lines[n - 1]@, n - 1)
    }
}

/// The characters of a string.
pub fn chars_of(text: &str) -> (chars: Vec<char>)
    ensures
        chars@ == text@,
{
    let mut chars: Vec<char> = Vec::new();
    for symbol in it: text.chars()
        invariant
            it.seq() == text@,
            chars@ == text@.take(it.index() as int),
    {
        chars.push(symbol);
        assert(chars@ =~= text@.take(it.index() + 1));
    }
    assert(text@.take(text@.len() as int) =~= text@);
    chars
}

/// Reads the givens off a grid drawn as lines of text, one character per
/// cell: every character but `.` and the space is a given, at the column
/// and line where it stands.
#[verifier::rlimit(50)]
pub fn givens(string_grid: &[String]) -> (result: Vec<GivenSymbol>)
    requires
        string_grid@.len() <= isize::MAX,
        forall|i: int| 0 <= i < string_grid@.len() ==> (#[trigger] string_grid@[i])@.len() <= isize::MAX,
    ensures
        result@ == grid_givens(string_grid@, string_grid@.len() as int),
{
    let mut result: Vec<GivenSymbol> = Vec::new();
    let mut row: usize = 0;
    while row < string_grid.len()
        invariant
            row <= string_grid@.len() <= isize::MAX,
            forall|i: int| 0 <= i < string_grid@.len() ==> (#[trigger] string_grid@[i])@.len() <= isize::MAX,
            result@ == grid_givens(string_grid@, row as int),
        decreases string_grid@.len() - row,
    {
        let line = chars_of(string_grid[row].as_str());
        let ghost before = result@;
        let mut column: usize = 0;
        assert(line@.take(0) =~= Seq::<char>::empty());
        while column < line.len()
            invariant
                column <= line@.len() <= isize::MAX,
                row < string_grid@.len() <= isize::MAX,
                result@ == before + line_givens(line@.take(column as int), row as int),
            decreases line@.len() - column,
        {
            let symbol = line[column];
            let ghost longer = line@.take(column + 1);
            assert(longer.drop_last() =~= line@.take(column as int));
            if symbol != '.' && symbol != ' ' {
                result.push(GivenSymbol { symbol, cell: Cell(column as isize, row as isize) });
            }
            column += 1;
            assert(result@ =~= before + line_givens(longer, row as int));
        }
        assert(line@.take(column as int) =~= line@);
        row += 1;
    }
    result
}

} // verus!
