use vstd::prelude::*;
use crate::settings::constraints::types::{Constraint, ConstraintView, views};
use crate::settings::presets::common::symbol_at;
use crate::shapes::{Cell, Region};
use crate::solving::apply_constraints::holds;
use crate::solving::strategies::deductions::{Action, Category, Deduction, DeductionView, SolvingError, deduction_views};
use crate::solving::strategies::interface::Strategy;
use crate::solving::symbol_positions::{SymbolPositions, added, candidate_positions, fixed_positions, holds_cell, on_grid, positions_view, symbol_positions};
use crate::states::base::State;
use crate::states::status::{all_fit, constraint_fits, region_fits};
use crate::states::tokensets::{CellState, CellStateView, Tokenset, cell_fits, grid_view, line_view, state_at};
use itertools::Itertools;

verus! {

/// Looks, in each region with a repartition, for groups of symbols that
/// have just as many cells left as they need: the symbols are then sure of
/// these cells. Groups of `min_size` symbols up to `max_size` symbols are
/// looked at; without `max_size`, up to all symbols but one.
pub struct HiddenTuples {
    min_size: usize,
    max_size: Option<usize>,
}

/// The symbol of entry `i`.
pub open spec fn key_at(map: Seq<(char, Seq<Cell>)>, i: int) -> char {
    map[i].0
}

/// The symbols of a list of positions, in the order of the list.
pub open spec fn keys(map: Seq<(char, Seq<Cell>)>) -> Seq<char> {
    Seq::new(map.len(), |i: int| key_at(map, i))
}

/// The repartition names `symbol`.
pub open spec fn has_share(repartition: Seq<(char, usize)>, symbol: char) -> bool {
    exists|k: int| 0 <= k < repartition.len() && (#[trigger] repartition[k]).0 == symbol
}

/// How often `symbol` stands in a region by the entries from `i` on: what
/// the first entry for it says, and zero without one.
pub open spec fn share(repartition: Seq<(char, usize)>, symbol: char, i: int) -> nat
    decreases repartition.len() - i,
{
    if i < 0 || i >= repartition.len() {
        0
    } else if repartition[i].0 == symbol {
        repartition[i].1 as nat
    } else {
        share(repartition, symbol, i + 1)
    }
}

/// The cells noted for `symbol` by the entries from `i` on: those of the
/// first entry for it, and none without one.
pub open spec fn lookup(map: Seq<(char, Seq<Cell>)>, symbol: char, i: int) -> Seq<Cell>
    decreases map.len() - i,
{
    if i < 0 || i >= map.len() {
        Seq::empty()
    } else if map[i].0 == symbol {
        map[i].1
    } else {
        lookup(map, symbol, i + 1)
    }
}

/// `cells` with the first `n` of `more` among them, each behind the others
/// if it is new.
pub open spec fn joined(cells: Seq<Cell>, more: Seq<Cell>, n: int) -> Seq<Cell>
    decreases n,
{
    if n <= 0 {
        cells
    } else {
        added(joined(cells, more, n - 1), more[n - 1])
    }
}

/// Where each candidate symbol can stand in the region: where it is a
/// candidate, and for a symbol of the repartition also where it stands
/// already.
pub open spec fn merged(
    candidates: Seq<(char, Seq<Cell>)>,
    fixed: Seq<(char, Seq<Cell>)>,
    repartition: Seq<(char, usize)>,
) -> Seq<(char, Seq<Cell>)> {
    Seq::new(
        candidates.len(),
        |i: int|
            (
                key_at(candidates, i),
                if has_share(repartition, key_at(candidates, i)) {
                    joined(
                        candidates[i].1,
                        lookup(fixed, key_at(candidates, i), 0),
                        lookup(fixed, key_at(candidates, i), 0).len() as int,
                    )
                } else {
                    candidates[i].1
                },
            ),
    )
}

/// How many cells the first `n` symbols of a group need together.
pub open spec fn needed(repartition: Seq<(char, usize)>, group: Seq<char>, n: int) -> nat
    decreases n,
{
    if n <= 0 {
        0
    } else {
        needed(repartition, group, n - 1) + share(repartition, symbol_at(group, n - 1), 0)
    }
}

/// The cells where one of the first `n` symbols of a group can stand.
pub open spec fn reachable(map: Seq<(char, Seq<Cell>)>, group: Seq<char>, n: int) -> Seq<Cell>
    decreases n,
{
    if n <= 0 {
        Seq::empty()
    } else {
        let more = lookup(map, symbol_at(group, n - 1), 0);
        joined(reachable(map, group, n - 1), more, more.len() as int)
    }
}

/// What is struck off a cell when it is kept for a group of symbols: its
/// candidates, as far as the first `k` go, that are not of the group.
pub open spec fn cell_removals(tokenset: usize, cell: Cell, candidates: Seq<char>, group: Seq<char>, k: int) -> Seq<
    Action,
>
    decreases k,
{
    if k <= 0 {
        Seq::empty()
    } else {
        let front = cell_removals(tokenset, cell, candidates, group, k - 1);
        let symbol = symbol_at(candidates, k - 1);
        if group.contains(symbol) {
            front
        } else {
            front.push(Action::RemoveSymbolCandidate { tokenset, cell, symbol })
        }
    }
}

/// What is struck off the first `n` of the cells that are kept for a group
/// of symbols.
pub open spec fn removals(
    tokenset: usize,
    grid: Seq<Seq<CellStateView>>,
    group: Seq<char>,
    positions: Seq<Cell>,
    n: int,
) -> Seq<Action>
    decreases n,
{
    if n <= 0 {
        Seq::empty()
    } else {
        removals(tokenset, grid, group, positions, n - 1) + (match state_at(grid, positions[n - 1]) {
            CellStateView::Candidates(candidates) => cell_removals(
                tokenset,
                positions[n - 1],
                candidates,
                group,
                candidates.len() as int,
            ),
            _ => Seq::empty(),
        })
    }
}

/// What follows for a group of symbols that is sure of its cells: a single
/// symbol is set in each of the cells; for a larger group, every other
/// candidate is struck off the cells.
pub open spec fn actions_for(
    tokenset: usize,
    grid: Seq<Seq<CellStateView>>,
    group: Seq<char>,
    positions: Seq<Cell>,
) -> Seq<Action> {
    if group.len() == 1 {
        Seq::new(
            positions.len(),
            |i: int| Action::SetSymbol { tokenset, cell: positions[i], symbol: symbol_at(group, 0) },
        )
    } else {
        removals(tokenset, grid, group, positions, positions.len() as int)
    }
}

/// What the first `n` groups of the list give, group after group: a group
/// with fewer cells than it needs ends the search; one with more gives
/// nothing; one with just enough gives a deduction, if anything follows
/// from it.
pub open spec fn found_in(
    tokenset: usize,
    grid: Seq<Seq<CellStateView>>,
    region: Seq<Cell>,
    repartition: Seq<(char, usize)>,
    map: Seq<(char, Seq<Cell>)>,
    groups: Seq<Seq<char>>,
    n: int,
) -> Result<Seq<DeductionView>, SolvingError>
    decreases n,
{
    if n <= 0 {
        Ok(Seq::empty())
    } else {
        match found_in(tokenset, grid, region, repartition, map, groups, n - 1) {
            Err(e) => Err(e),
            Ok(front) => {
                let group = groups[n - 1];
                let need = needed(repartition, group, group.len() as int);
                let positions = reachable(map, group, group.len() as int);
                if positions.len() < need {
                    Err(SolvingError::NotEnoughCandidates)
                } else if positions.len() > need {
                    Ok(front)
                } else {
                    let actions = actions_for(tokenset, grid, group, positions);
                    if actions.len() == 0 {
                        Ok(front)
                    } else {
                        Ok(front.push(DeductionView { symbols: group, region, positions, actions }))
                    }
                }
            },
        }
    }
}

/// Each of `lists` with `first` before it.
pub open spec fn with_first(first: char, lists: Seq<Seq<char>>) -> Seq<Seq<char>> {
    Seq::new(lists.len(), |i: int| seq![first] + lists[i])
}

/// The ways to pick `k` of `items`, each in the order of `items`: first
/// those with the first item, then those without it.
pub open spec fn combos(items: Seq<char>, k: nat) -> Seq<Seq<char>>
    decreases items.len(),
{
    if k == 0 {
        seq![Seq::<char>::empty()]
    } else if items.len() < k {
        Seq::empty()
    } else {
        with_first(symbol_at(items, 0), combos(items.drop_first(), (k - 1) as nat)) + combos(items.drop_first(), k)
    }
}

/// What the groups of `least` symbols, then of one more, and so on for `m`
/// sizes give.
pub open spec fn found_by_size(
    tokenset: usize,
    grid: Seq<Seq<CellStateView>>,
    region: Seq<Cell>,
    repartition: Seq<(char, usize)>,
    map: Seq<(char, Seq<Cell>)>,
    least: int,
    m: int,
) -> Result<Seq<DeductionView>, SolvingError>
    decreases m,
{
    if m <= 0 {
        Ok(Seq::empty())
    } else {
        match found_by_size(tokenset, grid, region, repartition, map, least, m - 1) {
            Err(e) => Err(e),
            Ok(front) => {
                let groups = combos(keys(map), (least + m - 1) as nat);
                match found_in(tokenset, grid, region, repartition, map, groups, groups.len() as int) {
                    Err(e) => Err(e),
                    Ok(more) => Ok(front + more),
                }
            },
        }
    }
}

/// The number of group sizes that are looked at among `n` symbols.
pub open spec fn sizes(min_size: usize, max_size: Option<usize>, n: int) -> int {
    let most = match max_size {
        Some(size) => if size >= n {
            n - 1
        } else {
            size as int
        },
        None => n - 1,
    };
    if n == 0 || most < min_size {
        0
    } else {
        most - min_size + 1
    }
}

/// What the strategy finds in one region.
pub open spec fn found_in_region(
    min_size: usize,
    max_size: Option<usize>,
    tokenset: usize,
    grid: Seq<Seq<CellStateView>>,
    region: Seq<Cell>,
    repartition: Seq<(char, usize)>,
) -> Result<Seq<DeductionView>, SolvingError> {
    let map = merged(
        candidate_positions(grid, region, region.len() as int),
        fixed_positions(grid, region, region.len() as int),
        repartition,
    );
    found_by_size(tokenset, grid, region, repartition, map, min_size as int, sizes(min_size, max_size, map.len() as int))
}

/// What the strategy finds for the first `n` constraints, constraint after
/// constraint; givens are passed over.
pub open spec fn found_for(
    min_size: usize,
    max_size: Option<usize>,
    state: Seq<Seq<Seq<CellStateView>>>,
    constraints: Seq<ConstraintView>,
    n: int,
) -> Result<Seq<DeductionView>, SolvingError>
    decreases n,
{
    if n <= 0 {
        Ok(Seq::empty())
    } else {
        match found_for(min_size, max_size, state, constraints, n - 1) {
            Err(e) => Err(e),
            Ok(front) => match constraints[n - 1] {
                ConstraintView::SymbolRepartition { tokenset, repartition, region } => match found_in_region(
                    min_size,
                    max_size,
                    tokenset,
                    state[tokenset as int],
                    region,
                    repartition,
                ) {
                    Err(e) => Err(e),
                    Ok(more) => Ok(front + more),
                },
                ConstraintView::GivenSymbol { .. } => Ok(front),
            },
        }
    }
}

/// No group of symbols needs more cells than a machine word can count.
pub open spec fn shares_fit(repartition: Seq<(char, usize)>, symbols: int) -> bool {
    forall|k: int| 0 <= k < repartition.len() ==> (#[trigger] repartition[k]).1 * symbols <= usize::MAX
}

/// The repartitions of the list can be summed up for any group of symbols
/// of their regions.
pub open spec fn all_shares_fit(state: Seq<Seq<Seq<CellStateView>>>, constraints: Seq<ConstraintView>) -> bool {
    forall|i: int|
        0 <= i < constraints.len() ==> match #[trigger] constraints[i] {
            ConstraintView::SymbolRepartition { tokenset, repartition, region } => shares_fit(
                repartition,
                candidate_positions(state[tokenset as int], region, region.len() as int).len() as int,
            ),
            ConstraintView::GivenSymbol { .. } => true,
        }
}

/// The ways to pick `size` of `symbols`, by `Itertools::combinations`: each
/// pick keeps the order of `symbols`, and the picks come in the order of
/// the places picked, those with the first symbol first.
#[verifier::external_body]
fn combinations(symbols: &Vec<char>, size: usize) -> (groups: Vec<Vec<char>>)
    ensures
        groups@.len() == combos(symbols@, size as nat).len(),
        forall|i: int| 0 <= i < groups@.len() ==> (#[trigger] groups@[i])@ == combos(symbols@, size as nat)[i],
{
    symbols.iter().copied().combinations(size).collect()
}

/// The symbols as one text, by `Itertools::join` with nothing between them.
#[verifier::external_body]
fn join(symbols: &Vec<char>) -> (text: String)
    ensures
        text@ == symbols@,
{
    symbols.iter().join("")
}

impl HiddenTuples {
    /// The smallest number of symbols in a group.
    pub closed spec fn min_size(&self) -> usize {
        self.min_size
    }

    /// The largest number of symbols in a group, if there is a bound.
    pub closed spec fn max_size(&self) -> Option<usize> {
        self.max_size
    }

    /// Looks at groups of `size` symbols.
    pub fn with_fixed_size(size: usize) -> (strategy: HiddenTuples)
        ensures
            strategy.min_size() == size,
            strategy.max_size() == Some(size),
    {
        HiddenTuples { min_size: size, max_size: Some(size) }
    }

    /// Looks at groups of `size` symbols and more.
    pub fn with_min_size(size: usize) -> (strategy: HiddenTuples)
        ensures
            strategy.min_size() == size,
            strategy.max_size() == None::<usize>,
    {
        HiddenTuples { min_size: size, max_size: None }
    }

    #[verifier::rlimit(50)]
    fn search_for_constraint(
        &self,
        tokenset: usize,
        repartition: &Vec<(char, usize)>,
        region: &Region,
        cells: &Vec<Vec<CellState>>,
    ) -> (result: Result<Vec<Deduction>, SolvingError>)
        requires
            region_fits(grid_view(cells@), region@),
            shares_fit(
                repartition@,
                candidate_positions(grid_view(cells@), region@, region@.len() as int).len() as int,
            ),
        ensures
            match result {
                Ok(deductions) => found_in_region(
                    self.min_size(),
                    self.max_size(),
                    tokenset,
                    grid_view(cells@),
                    region@,
                    repartition@,
                ) == Ok::<Seq<DeductionView>, SolvingError>(deduction_views(deductions@)),
                Err(e) => found_in_region(
                    self.min_size(),
                    self.max_size(),
                    tokenset,
                    grid_view(cells@),
                    region@,
                    repartition@,
                ) == Err::<Seq<DeductionView>, SolvingError>(e),
            },
    {
        let ghost grid = grid_view(cells@);
        let mut result: Vec<Deduction> = Vec::new();
        let (set_positions, mut candidate_positions) = symbol_positions(cells, region);
        let ghost fixed = positions_view(set_positions@);
        let ghost open = positions_view(candidate_positions@);
        merge_positions(&mut candidate_positions, &set_positions, repartition, Ghost(grid));
        let ghost map = positions_view(candidate_positions@);
        assert(map == merged(open, fixed, repartition@));
        let count = candidate_positions.len();
        assert(deduction_views(result@) =~= Seq::empty());
        assert(found_by_size(tokenset, grid, region@, repartition@, map, self.min_size as int, 0) == Ok::<
            Seq<DeductionView>,
            SolvingError,
        >(Seq::empty()));
        if count == 0 {
            return Ok(result);
        }
        let mut max_size = match self.max_size {
            Some(size) => size,
            None => count - 1,
        };
        if max_size >= count {
            max_size = count - 1;
        }
        if max_size < self.min_size {
            return Ok(result);
        }
        let symbols = list_keys(&candidate_positions);
        let ghost m_all = sizes(self.min_size, self.max_size, count as int);
        let ghost goal = found_in_region(self.min_size(), self.max_size(), tokenset, grid, region@, repartition@);
        assert(goal == found_by_size(tokenset, grid, region@, repartition@, map, self.min_size as int, m_all));
        let mut size = self.min_size;
        while size <= max_size
            invariant
                goal == found_by_size(tokenset, grid, region@, repartition@, map, self.min_size as int, m_all),
                goal == found_in_region(self.min_size(), self.max_size(), tokenset, grid, region@, repartition@),
                self.min_size <= size <= max_size + 1,
                max_size < count,
                count == map.len(),
                m_all == max_size - self.min_size + 1,
                grid == grid_view(cells@),
                region_fits(grid, region@),
                map == positions_view(candidate_positions@),
                on_grid(map, grid),
                symbols@ == keys(map),
                shares_fit(repartition@, count as int),
                found_by_size(tokenset, grid, region@, repartition@, map, self.min_size as int, size - self.min_size)
                    == Ok::<Seq<DeductionView>, SolvingError>(deduction_views(result@)),
            decreases max_size + 1 - size,
        {
            let groups = combinations(&symbols, size);
            let ghost list = combos(symbols@, size as nat);
            let ghost before = deduction_views(result@);
            let mut n: usize = 0;
            proof {
                lemma_combos_sized(symbols@, size as nat);
            }
            while n < groups.len()
                invariant
                    goal == found_by_size(tokenset, grid, region@, repartition@, map, self.min_size as int, m_all),
                    goal == found_in_region(self.min_size(), self.max_size(), tokenset, grid, region@, repartition@),
                    m_all == max_size - self.min_size + 1,
                    self.min_size <= size,
                    list == combos(keys(map), size as nat),
                    found_by_size(
                        tokenset,
                        grid,
                        region@,
                        repartition@,
                        map,
                        self.min_size as int,
                        size - self.min_size,
                    ) == Ok::<Seq<DeductionView>, SolvingError>(before),
                    n <= groups@.len(),
                    groups@.len() == list.len(),
                    forall|i: int| 0 <= i < groups@.len() ==> (#[trigger] groups@[i])@ == list[i],
                    forall|i: int| 0 <= i < list.len() ==> (#[trigger] list[i]).len() == size,
                    size <= max_size < count,
                    grid == grid_view(cells@),
                    region_fits(grid, region@),
                    map == positions_view(candidate_positions@),
                    on_grid(map, grid),
                    shares_fit(repartition@, count as int),
                    match found_in(tokenset, grid, region@, repartition@, map, list, n as int) {
                        Ok(more) => deduction_views(result@) == before + more,
                        Err(_) => false,
                    },
                decreases groups@.len() - n,
            {
                let combination = &groups[n];
                let ghost group = list[n as int];
                assert(combination@ == group);
                assert(group.len() == size);
                let needed_count = count_needed(repartition, combination, Ghost(count as int));
                let positions = gather(&candidate_positions, combination, Ghost(grid));
                let ghost sofar = found_in(tokenset, grid, region@, repartition@, map, list, n as int)->Ok_0;
                if positions.len() < needed_count {
                    proof {
                        lemma_found_in_fails(tokenset, grid, region@, repartition@, map, list, n as int + 1);
                        lemma_found_by_size_fails(
                            tokenset,
                            grid,
                            region@,
                            repartition@,
                            map,
                            self.min_size as int,
                            size - self.min_size + 1,
                            m_all,
                        );
                    }
                    return Err(SolvingError::NotEnoughCandidates);
                }
                if positions.len() == needed_count {
                    let actions = list_actions(tokenset, cells, combination, &positions);
                    if actions.len() > 0 {
                        let deduction = Deduction {
                            category: Category::HiddenTuple {
                                symbols: join(combination),
                                region: region.clone(),
                                positions,
                            },
                            actions,
                        };
                        let ghost view = deduction@;
                        let ghost earlier = deduction_views(result@);
                        assert(earlier == before + sofar);
                        result.push(deduction);
                        assert(deduction_views(result@) =~= earlier.push(view));
                        assert(earlier.push(view) =~= before + sofar.push(view));
                    }
                }
                n += 1;
            }
            proof {
                let more = found_in(tokenset, grid, region@, repartition@, map, list, list.len() as int)->Ok_0;
                assert(deduction_views(result@) == before + more);
            }
            size += 1;
        }
        Ok(result)
    }
}

impl Strategy for HiddenTuples {
    open spec fn ready(&self, constraints: &[Constraint], state: &State) -> bool {
        all_shares_fit(state@, views(constraints@))
    }

    fn search(&self, constraints: &[Constraint], state: &State) -> (result: Result<Vec<Deduction>, SolvingError>)
        ensures
            match result {
                Ok(deductions) => found_for(
                    self.min_size(),
                    self.max_size(),
                    state@,
                    views(constraints@),
                    constraints@.len() as int,
                ) == Ok::<Seq<DeductionView>, SolvingError>(deduction_views(deductions@)),
                Err(e) => found_for(
                    self.min_size(),
                    self.max_size(),
                    state@,
                    views(constraints@),
                    constraints@.len() as int,
                ) == Err::<Seq<DeductionView>, SolvingError>(e),
            },
    {
        let ghost list = views(constraints@);
        let mut result: Vec<Deduction> = Vec::new();
        assert(deduction_views(result@) =~= Seq::empty());
        let mut n: usize = 0;
        while n < constraints.len()
            invariant
                n <= constraints@.len(),
                list == views(constraints@),
                all_fit(state@, list),
                all_shares_fit(state@, list),
                found_for(self.min_size(), self.max_size(), state@, list, n as int) == Ok::<
                    Seq<DeductionView>,
                    SolvingError,
                >(deduction_views(result@)),
            decreases constraints@.len() - n,
        {
            assert(list[n as int] == constraints@[n as int]@);
            assert(constraint_fits(state@, list[n as int]));
            if let Constraint::SymbolRepartition { tokenset, repartition, region } = &constraints[n] {
                match &state.tokensets[*tokenset] {
                    Tokenset::Symbols(cells) => {
                        assert(state@[*tokenset as int] == grid_view(cells@));
                        match self.search_for_constraint(*tokenset, repartition, region, cells) {
                            Err(e) => {
                                proof {
                                    lemma_found_for_fails(
                                        self.min_size(),
                                        self.max_size(),
                                        state@,
                                        list,
                                        n as int + 1,
                                        list.len() as int,
                                    );
                                }
                                return Err(e);
                            },
                            Ok(mut more) => {
                                let ghost front = deduction_views(result@);
                                let ghost back = deduction_views(more@);
                                result.append(&mut more);
                                assert(deduction_views(result@) =~= front + back);
                            },
                        }
                    },
                }
            }
            n += 1;
        }
        Ok(result)
    }
}

/// Once a group ends the search, the groups behind it change nothing.
proof fn lemma_found_in_fails(
    tokenset: usize,
    grid: Seq<Seq<CellStateView>>,
    region: Seq<Cell>,
    repartition: Seq<(char, usize)>,
    map: Seq<(char, Seq<Cell>)>,
    groups: Seq<Seq<char>>,
    n: int,
)
    requires
        0 <= n <= groups.len(),
        found_in(tokenset, grid, region, repartition, map, groups, n) is Err,
    ensures
        found_in(tokenset, grid, region, repartition, map, groups, groups.len() as int)
            == Err::<Seq<DeductionView>, SolvingError>(SolvingError::NotEnoughCandidates),
    decreases groups.len() - n,
{
    if n < groups.len() {
        lemma_found_in_fails(tokenset, grid, region, repartition, map, groups, n + 1);
    }
}

/// Once a size ends the search, the sizes behind it change nothing.
proof fn lemma_found_by_size_fails(
    tokenset: usize,
    grid: Seq<Seq<CellStateView>>,
    region: Seq<Cell>,
    repartition: Seq<(char, usize)>,
    map: Seq<(char, Seq<Cell>)>,
    least: int,
    m: int,
    all: int,
)
    requires
        0 <= m <= all,
        found_by_size(tokenset, grid, region, repartition, map, least, m) is Err,
    ensures
        found_by_size(tokenset, grid, region, repartition, map, least, all) == Err::<
            Seq<DeductionView>,
            SolvingError,
        >(SolvingError::NotEnoughCandidates),
    decreases all - m,
{
    if m < all {
        lemma_found_by_size_fails(tokenset, grid, region, repartition, map, least, m + 1, all);
    }
}

/// Once a constraint ends the search, the constraints behind it change
/// nothing.
proof fn lemma_found_for_fails(
    min_size: usize,
    max_size: Option<usize>,
    state: Seq<Seq<Seq<CellStateView>>>,
    constraints: Seq<ConstraintView>,
    n: int,
    all: int,
)
    requires
        0 <= n <= all,
        found_for(min_size, max_size, state, constraints, n) is Err,
    ensures
        found_for(min_size, max_size, state, constraints, all) == found_for(min_size, max_size, state, constraints, n),
    decreases all - n,
{
    if n < all {
        lemma_found_for_fails(min_size, max_size, state, constraints, n, all - 1);
    }
}

/// Every way to pick `k` items has `k` items.
proof fn lemma_combos_sized(items: Seq<char>, k: nat)
    ensures
        forall|i: int| 0 <= i < combos(items, k).len() ==> (#[trigger] combos(items, k)[i]).len() == k,
    decreases items.len(),
{
    if k > 0 && items.len() >= k {
        lemma_combos_sized(items.drop_first(), (k - 1) as nat);
        lemma_combos_sized(items.drop_first(), k);
        let with = with_first(symbol_at(items, 0), combos(items.drop_first(), (k - 1) as nat));
        let without = combos(items.drop_first(), k);
        assert forall|i: int| 0 <= i < combos(items, k).len() implies (#[trigger] combos(items, k)[i]).len()
            == k by {
            if i < with.len() {
                assert(combos(items, k)[i] == with[i]);
                assert(combos(items.drop_first(), (k - 1) as nat)[i].len() == k - 1);
            } else {
                assert(combos(items, k)[i] == without[i - with.len()]);
            }
        }
    }
}

/// The symbols of the list.
fn list_keys(map: &SymbolPositions) -> (symbols: Vec<char>)
    ensures
        symbols@ == keys(positions_view(map@)),
{
    let mut symbols: Vec<char> = Vec::new();
    let mut i: usize = 0;
    while i < map.len()
        invariant
            i <= map@.len(),
            symbols@.len() == i,
            forall|k: int| 0 <= k < i ==> symbols@[k] == key_at(positions_view(map@), k),
        decreases map@.len() - i,
    {
        symbols.push(map[i].0);
        i += 1;
    }
    assert(symbols@ =~= keys(positions_view(map@)));
    symbols
}

/// Adds the cells of `more` to `cells`, each behind the others if it is
/// new.
fn join_into(cells: &mut Vec<Cell>, more: &Vec<Cell>)
    ensures
        final(cells)@ == joined(old(cells)@, more@, more@.len() as int),
        forall|k: int|
            0 <= k < final(cells)@.len() ==> old(cells)@.contains(#[trigger] final(cells)@[k]) || more@.contains(
                final(cells)@[k],
            ),
{
    let mut n: usize = 0;
    while n < more.len()
        invariant
            n <= more@.len(),
            cells@ == joined(old(cells)@, more@, n as int),
            forall|k: int|
                0 <= k < cells@.len() ==> old(cells)@.contains(#[trigger] cells@[k]) || more@.contains(cells@[k]),
        decreases more@.len() - n,
    {
        if !holds_cell(cells, &more[n]) {
            cells.push(more[n]);
        }
        n += 1;
    }
}

/// Where the entry for `symbol` stands in the list, if there is one.
fn find_positions(map: &SymbolPositions, symbol: char) -> (found: Option<usize>)
    ensures
        match found {
            Some(i) => i < map@.len() && map@[i as int].0 == symbol && lookup(positions_view(map@), symbol, 0)
                == map@[i as int].1@,
            None => lookup(positions_view(map@), symbol, 0) == Seq::<Cell>::empty(),
        },
{
    let ghost view = positions_view(map@);
    let mut i: usize = 0;
    while i < map.len()
        invariant
            i <= map@.len(),
            view == positions_view(map@),
            lookup(view, symbol, 0) == lookup(view, symbol, i as int),
        decreases map@.len() - i,
    {
        assert(view[i as int].0 == map@[i as int].0);
        if map[i].0 == symbol {
            return Some(i);
        }
        i += 1;
    }
    None
}

/// The share of `symbol`, if the repartition names it.
fn find_share(repartition: &Vec<(char, usize)>, symbol: char) -> (found: Option<usize>)
    ensures
        match found {
            Some(count) => has_share(repartition@, symbol) && share(repartition@, symbol, 0) == count,
            None => !has_share(repartition@, symbol) && share(repartition@, symbol, 0) == 0,
        },
        share(repartition@, symbol, 0) > 0 ==> exists|k: int|
            0 <= k < repartition@.len() && (#[trigger] repartition@[k]).1 == share(repartition@, symbol, 0),
{
    let mut i: usize = 0;
    while i < repartition.len()
        invariant
            i <= repartition@.len(),
            share(repartition@, symbol, 0) == share(repartition@, symbol, i as int),
            forall|k: int| 0 <= k < i ==> (#[trigger] repartition@[k]).0 != symbol,
        decreases repartition@.len() - i,
    {
        if repartition[i].0 == symbol {
            assert(repartition@[i as int].1 == share(repartition@, symbol, 0));
            return Some(repartition[i].1);
        }
        i += 1;
    }
    None
}

/// For each candidate symbol that the repartition names, adds the cells
/// where the symbol stands already to those where it is a candidate.
#[verifier::rlimit(50)]
fn merge_positions(
    candidates: &mut SymbolPositions,
    fixed: &SymbolPositions,
    repartition: &Vec<(char, usize)>,
    Ghost(grid): Ghost<Seq<Seq<CellStateView>>>,
)
    requires
        on_grid(positions_view(old(candidates)@), grid),
        on_grid(positions_view(fixed@), grid),
    ensures
        positions_view(final(candidates)@) == merged(
            positions_view(old(candidates)@),
            positions_view(fixed@),
            repartition@,
        ),
        final(candidates)@.len() == old(candidates)@.len(),
        on_grid(positions_view(final(candidates)@), grid),
{
    let ghost start = positions_view(candidates@);
    let ghost set = positions_view(fixed@);
    let ghost goal = merged(start, set, repartition@);
    let mut i: usize = 0;
    while i < candidates.len()
        invariant
            i <= candidates@.len(),
            candidates@.len() == start.len(),
            start == positions_view(old(candidates)@),
            set == positions_view(fixed@),
            goal == merged(start, set, repartition@),
            on_grid(set, grid),
            on_grid(start, grid),
            on_grid(positions_view(candidates@), grid),
            forall|k: int| 0 <= k < i ==> #[trigger] positions_view(candidates@)[k] == goal[k],
            forall|k: int| i <= k < candidates@.len() ==> #[trigger] positions_view(candidates@)[k] == start[k],
        decreases candidates@.len() - i,
    {
        let symbol = candidates[i].0;
        let ghost before = positions_view(candidates@);
        assert(before[i as int] == start[i as int]);
        assert(symbol == key_at(start, i as int));
        if find_share(repartition, symbol).is_some() {
            if let Some(at) = find_positions(fixed, symbol) {
                let ghost more = fixed@[at as int].1@;
                assert(more == set[at as int].1);
                join_into(&mut candidates[i].1, &fixed[at].1);
                proof {
                    let after = positions_view(candidates@);
                    assert forall|a: int, b: int| 0 <= a < after.len() && 0 <= b < after[a].1.len() implies cell_fits(
                        grid,
                        #[trigger] after[a].1[b],
                    ) by {
                        if a == i {
                            let c = after[a].1[b];
                            if before[a].1.contains(c) {
                                let w = choose|w: int| 0 <= w < before[a].1.len() && before[a].1[w] == c;
                                assert(cell_fits(grid, before[a].1[w]));
                            } else {
                                let w = choose|w: int| 0 <= w < more.len() && more[w] == c;
                                assert(cell_fits(grid, set[at as int].1[w]));
                            }
                        } else {
                            assert(after[a] == before[a]);
                            assert(cell_fits(grid, before[a].1[b]));
                        }
                    }
                }
            } else {
                assert(joined(start[i as int].1, Seq::<Cell>::empty(), 0) == start[i as int].1);
            }
        }
        proof {
            let after = positions_view(candidates@);
            assert(after[i as int] == goal[i as int]);
            assert forall|k: int| 0 <= k < i + 1 implies #[trigger] after[k] == goal[k] by {
                if k < i {
                    assert(after[k] == before[k]);
                }
            }
            assert forall|k: int| i + 1 <= k < candidates@.len() implies #[trigger] after[k] == start[k] by {
                assert(after[k] == before[k]);
            }
        }
        i += 1;
    }
    assert(positions_view(candidates@) =~= goal);
}

/// The number of cells that a group of symbols needs.
#[verifier::rlimit(50)]
fn count_needed(repartition: &Vec<(char, usize)>, group: &Vec<char>, Ghost(symbols): Ghost<int>) -> (count: usize)
    requires
        shares_fit(repartition@, symbols),
        group@.len() <= symbols,
    ensures
        count == needed(repartition@, group@, group@.len() as int),
{
    let mut count: usize = 0;
    let mut n: usize = 0;
    let ghost mut most: nat = 0;
    while n < group.len()
        invariant
            n <= group@.len() <= symbols,
            shares_fit(repartition@, symbols),
            count == needed(repartition@, group@, n as int),
            count <= most * n,
            most * symbols <= usize::MAX,
            most == 0 || exists|k: int| 0 <= k < repartition@.len() && (#[trigger] repartition@[k]).1 == most,
        decreases group@.len() - n,
    {
        let symbol = group[n];
        assert(symbol == symbol_at(group@, n as int));
        let add = match find_share(repartition, symbol) {
            Some(found) => found,
            None => 0,
        };
        proof {
            if add > most {
                let k = choose|k: int|
                    0 <= k < repartition@.len() && (#[trigger] repartition@[k]).1 == share(repartition@, symbol, 0);
                assert(repartition@[k].1 * symbols <= usize::MAX);
                assert(most * n <= add * n) by (nonlinear_arith)
                    requires
                        most <= add,
                        n >= 0,
                ;
                most = add as nat;
            }
            assert(count + add <= most * (n + 1)) by (nonlinear_arith)
                requires
                    count <= most * n,
                    add <= most,
            ;
            assert(most * (n + 1) <= most * symbols) by (nonlinear_arith)
                requires
                    n + 1 <= symbols,
                    most >= 0,
            ;
        }
        count = count + add;
        n += 1;
    }
    count
}

/// The cells where one of the symbols of a group can stand.
#[verifier::rlimit(50)]
fn gather(map: &SymbolPositions, group: &Vec<char>, Ghost(grid): Ghost<Seq<Seq<CellStateView>>>) -> (positions: Vec<
    Cell,
>)
    requires
        on_grid(positions_view(map@), grid),
    ensures
        positions@ == reachable(positions_view(map@), group@, group@.len() as int),
        forall|k: int| 0 <= k < positions@.len() ==> cell_fits(grid, #[trigger] positions@[k]),
{
    let ghost view = positions_view(map@);
    let mut positions: Vec<Cell> = Vec::new();
    let mut n: usize = 0;
    while n < group.len()
        invariant
            n <= group@.len(),
            view == positions_view(map@),
            on_grid(view, grid),
            positions@ == reachable(view, group@, n as int),
            forall|k: int| 0 <= k < positions@.len() ==> cell_fits(grid, #[trigger] positions@[k]),
        decreases group@.len() - n,
    {
        let symbol = group[n];
        assert(symbol == symbol_at(group@, n as int));
        let ghost before = positions@;
        if let Some(at) = find_positions(map, symbol) {
            let ghost more = map@[at as int].1@;
            assert(more == view[at as int].1);
            join_into(&mut positions, &map[at].1);
            assert forall|k: int| 0 <= k < positions@.len() implies cell_fits(grid, #[trigger] positions@[k]) by {
                let c = positions@[k];
                if before.contains(c) {
                    let w = choose|w: int| 0 <= w < before.len() && before[w] == c;
                    assert(cell_fits(grid, before[w]));
                } else {
                    let w = choose|w: int| 0 <= w < more.len() && more[w] == c;
                    assert(cell_fits(grid, view[at as int].1[w]));
                }
            }
        } else {
            assert(joined(before, Seq::<Cell>::empty(), 0) == before);
        }
        n += 1;
    }
    positions
}

/// What follows for a group of symbols that is sure of its cells.
#[verifier::rlimit(50)]
fn list_actions(tokenset: usize, cells: &Vec<Vec<CellState>>, symbols: &Vec<char>, positions: &Vec<Cell>) -> (actions:
    Vec<Action>)
    requires
        forall|k: int| 0 <= k < positions@.len() ==> cell_fits(grid_view(cells@), #[trigger] positions@[k]),
    ensures
        actions@ == actions_for(tokenset, grid_view(cells@), symbols@, positions@),
{
    let ghost grid = grid_view(cells@);
    let mut actions: Vec<Action> = Vec::new();
    if symbols.len() == 1 {
        let symbol = symbols[0];
        assert(symbol == symbol_at(symbols@, 0));
        let mut i: usize = 0;
        while i < positions.len()
            invariant
                i <= positions@.len(),
                symbol == symbol_at(symbols@, 0),
                actions@.len() == i,
                forall|k: int|
                    0 <= k < i ==> actions@[k] == (Action::SetSymbol { tokenset, cell: positions@[k], symbol }),
            decreases positions@.len() - i,
        {
            actions.push(Action::SetSymbol { tokenset, cell: positions[i], symbol });
            i += 1;
        }
        assert(actions@ =~= actions_for(tokenset, grid, symbols@, positions@));
    } else {
        let mut n: usize = 0;
        while n < positions.len()
            invariant
                n <= positions@.len(),
                grid == grid_view(cells@),
                forall|k: int| 0 <= k < positions@.len() ==> cell_fits(grid, #[trigger] positions@[k]),
                actions@ == removals(tokenset, grid, symbols@, positions@, n as int),
            decreases positions@.len() - n,
        {
            let position = &positions[n];
            assert(cell_fits(grid, positions@[n as int]));
            assert(grid[position.1 as int] == line_view(cells@[position.1 as int]@));
            let ghost before = actions@;
            if let CellState::Candidates(candidates) = &cells[position.1 as usize][position.0 as usize] {
                let mut k: usize = 0;
                while k < candidates.len()
                    invariant
                        k <= candidates@.len(),
                        actions@ == before + cell_removals(tokenset, *position, candidates@, symbols@, k as int),
                    decreases candidates@.len() - k,
                {
                    let candidate = candidates[k];
                    assert(candidate == symbol_at(candidates@, k as int));
                    if !holds(symbols, candidate) {
                        actions.push(Action::RemoveSymbolCandidate { tokenset, cell: *position, symbol: candidate });
                    }
                    k += 1;
                    assert(actions@ =~= before + cell_removals(tokenset, *position, candidates@, symbols@, k as int));
                }
            } else {
                assert(actions@ =~= before + Seq::<Action>::empty());
            }
            n += 1;
        }
    }
    actions
}

} // verus!
