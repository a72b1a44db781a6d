use vstd::prelude::*;
use crate::settings::grids::Grid;
use crate::settings::presets::common::{givens, grid_givens};
use crate::settings::puzzle_settings::PuzzleSetting;
use crate::settings::rules::{GivenSymbol, Rule};
use crate::settings::tokens::{GridIndex, TokenSet, TokenSetIndex};
use crate::shapes::regions::box_at;
use crate::shapes::{Cell, Region};
use crate::text::{decimal, push_decimal};

verus! {

/// The numbers from 1 to `n` written in decimal, one behind the other.
pub open spec fn counting(n: nat) -> Seq<char>
    decreases n,
{
    if n == 0 {
        Seq::empty()
    } else {
        counting((n - 1) as nat) + decimal(n)
    }
}

/// The height of the boxes of a square sudoku of `size` lines whose boxes
/// are `box_width` cells wide.
pub open spec fn lines_per_box(size: nat, box_width: usize) -> int {
    (size as int) / (box_width as int)
}

/// The regions of a rule, each as its cells.
pub open spec fn region_views(regions: Seq<Region>) -> Seq<Seq<Cell>> {
    Seq::new(regions.len(), |i: int| regions[i]@)
}

/// A sudoku on a square grid drawn as lines of text, with boxes that are
/// `box_width` cells wide: one grid, the digits from 1 up to the number of
/// lines as candidates, and one rule with the boxes as its regions and what
/// the lines show as its givens.
#[verifier::rlimit(50)]
pub fn setting(box_width: usize, givens: &[String]) -> (setting: PuzzleSetting)
    requires
        box_width > 0,
        box_width * box_width <= isize::MAX,
        lines_per_box(givens@.len(), box_width) * lines_per_box(givens@.len(), box_width) <= isize::MAX,
        box_width * lines_per_box(givens@.len(), box_width) <= usize::MAX,
        givens@.len() <= isize::MAX,
        forall|i: int| 0 <= i < givens@.len() ==> (#[trigger] givens@[i])@.len() <= isize::MAX,
    ensures
        setting.grids@ == seq![Grid { rows: givens@.len() as usize, columns: givens@.len() as usize }],
        setting.tokensets@.len() == 1,
        setting.tokensets@[0].grid() == 0,
        setting.tokensets@[0].candidates() == counting(givens@.len()),
        setting.rules@.len() == 1,
        setting.rules@[0].tokenset() == 0,
        setting.rules@[0].givens() == grid_givens(givens@, givens@.len() as int),
        setting.rules@[0].regions().len() == box_width * lines_per_box(givens@.len(), box_width),
        forall|h: int, v: int|
            0 <= h < lines_per_box(givens@.len(), box_width) && 0 <= v < box_width ==> (
            #[trigger] setting.rules@[0].regions()[h * box_width + v]) == box_at(
                v * box_width,
                h * lines_per_box(givens@.len(), box_width),
                box_width as int,
                lines_per_box(givens@.len(), box_width),
            ),
{
    let size = givens.len();
    let box_height = size / box_width;
    let mut setting = PuzzleSetting::default();
    let grid = setting.add_grid(size, size);
    let regions = Region::grid_boxes(box_width, box_height, box_width, box_height);
    let givens = crate::settings::presets::common::givens(givens);
    let ghost shown = region_views(regions@);
    add_symbolset(&mut setting, grid, size, regions, givens);
    proof {
        assert(setting.grids@ =~= seq![Grid { rows: size, columns: size }]);
        assert forall|h: int, v: int| 0 <= h < box_height && 0 <= v < box_width implies (
        #[trigger] setting.rules@[0].regions()[h * box_width + v]) == box_at(
            v * box_width,
            h * box_height,
            box_width as int,
            box_height as int,
        ) by {
            assert(0 <= h * box_width + v < box_width * box_height) by (nonlinear_arith)
                requires
                    0 <= h < box_height,
                    0 <= v < box_width,
            ;
            assert(shown[h * box_width + v] == regions@[h * box_width + v]@);
        }
    }
    setting
}

/// Adds to the puzzle the symbols of a sudoku on grid `grid`: the digits
/// from 1 to `digits` as candidates, and the rule that each stands once in
/// every row, every column and every one of `regions`, with `givens` shown.
/// Says where the set of symbols stands.
pub fn add_symbolset(
    setting: &mut PuzzleSetting,
    grid: GridIndex,
    digits: usize,
    regions: Vec<Region>,
    givens: Vec<GivenSymbol>,
) -> (tokenset: TokenSetIndex)
    ensures
        tokenset == old(setting).tokensets@.len(),
        final(setting).grids == old(setting).grids,
        final(setting).tokensets@.len() == old(setting).tokensets@.len() + 1,
        forall|i: int|
            0 <= i < old(setting).tokensets@.len() ==> final(setting).tokensets@[i] == old(setting).tokensets@[i],
        final(setting).tokensets@[tokenset as int].grid() == grid,
        final(setting).tokensets@[tokenset as int].candidates() == counting(digits as nat),
        final(setting).rules@.len() == old(setting).rules@.len() + 1,
        forall|i: int| 0 <= i < old(setting).rules@.len() ==> final(setting).rules@[i] == old(setting).rules@[i],
        final(setting).rules@[old(setting).rules@.len() as int].tokenset() == tokenset,
        final(setting).rules@[old(setting).rules@.len() as int].regions() == region_views(regions@),
        final(setting).rules@[old(setting).rules@.len() as int].givens() == givens@,
{
    let mut candidates: Vec<char> = Vec::new();
    let mut digit: usize = 0;
    while digit < digits
        invariant
            digit <= digits,
            candidates@ == counting(digit as nat),
        decreases digits - digit,
    {
        digit += 1;
        push_decimal(digit, &mut candidates);
    }
    let category = TokenSet::Symbols { candidates, grid };
    let tokenset = setting.add_symbolset(category);
    let rule = Rule::Sudoku { tokenset, regions, givens };
    setting.rules.push(rule);
    assert(setting.rules@[old(setting).rules@.len() as int].regions() =~= region_views(regions@));
    tokenset
}

} // verus!
