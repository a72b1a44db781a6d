use vstd::prelude::*;

verus! {

/// A position on a grid: the column first, then the row.
#[derive(Clone, Copy, Debug, PartialEq, Eq, PartialOrd, Ord, Hash, Structural)]
pub struct Cell(pub isize, pub isize);

/// Walks the moves that a quarter turn makes of one move: for the move
/// turned once, twice and three times, its multiples by 1 up to `count`.
pub struct DirectionGenerator {
    count: isize,
    factor: isize,
    remaining_directions: usize,
    x: isize,
    y: isize,
}

/// The move `(x, y)` after `turns` quarter turns.
pub open spec fn turned(x: int, y: int, turns: int) -> (int, int) {
    if turns % 4 == 0 {
        (x, y)
    } else if turns % 4 == 1 {
        (y, -x)
    } else if turns % 4 == 2 {
        (-x, -y)
    } else {
        (-y, x)
    }
}

impl DirectionGenerator {
    /// The largest multiple that is taken of each direction.
    pub closed spec fn count(&self) -> int {
        self.count as int
    }

    /// The multiple that was given out last.
    pub closed spec fn factor(&self) -> int {
        self.factor as int
    }

    /// The number of directions that are not finished, the current one
    /// included.
    pub closed spec fn remaining(&self) -> int {
        self.remaining_directions as int
    }

    /// The current direction.
    pub closed spec fn direction(&self) -> (int, int) {
        (self.x as int, self.y as int)
    }

    /// What a generator for the move `(x, y)` starts from.
    pub open spec fn fresh(&self, x: int, y: int, count: int) -> bool {
        &&& self.count() == count
        &&& self.factor() == count
        &&& self.remaining() == 4
        &&& self.direction() == (x, y)
    }

    /// Every multiple that the generator can still give out fits a machine
    /// word.
    pub open spec fn in_range(&self) -> bool {
        let (x, y) = self.direction();
        let most = if self.count() < 1 { 1 } else { self.count() };
        &&& self.count() < isize::MAX
        &&& self.factor() <= most
        &&& self.factor() >= 1 || self.factor() == self.count()
        &&& -isize::MAX <= most * x <= isize::MAX
        &&& -isize::MAX <= most * y <= isize::MAX
        &&& -isize::MAX <= x <= isize::MAX
        &&& -isize::MAX <= y <= isize::MAX
    }

    #[verifier::rlimit(50)]
    pub fn new(x: isize, y: isize, count: isize) -> (generator: DirectionGenerator)
        ensures
            generator.fresh(x as int, y as int, count as int),
    {
        DirectionGenerator { count, factor: count, remaining_directions: 4, x, y }
    }

    /// The next move, or `None` once the third direction is finished. Within
    /// a direction the multiples go up by one; past `count` the direction
    /// takes a quarter turn and the multiples begin at 1 again.
    pub fn next(&mut self) -> (step: Option<Cell>)
        requires
            old(self).in_range(),
            old(self).remaining() > 0,
        ensures
            final(self).count() == old(self).count(),
            old(self).factor() < old(self).count() ==> {
                &&& final(self).factor() == old(self).factor() + 1
                &&& final(self).remaining() == old(self).remaining()
                &&& final(self).direction() == old(self).direction()
                &&& final(self).in_range()
                &&& step == Some(
                    Cell(
                        (final(self).factor() * old(self).direction().0) as isize,
                        (final(self).factor() * old(self).direction().1) as isize,
                    ),
                )
            },
            old(self).factor() >= old(self).count() ==> {
                &&& final(self).factor() == 1
                &&& final(self).remaining() == old(self).remaining() - 1
            },
            old(self).factor() >= old(self).count() && old(self).remaining() == 1 ==> {
                &&& step is None
                &&& final(self).direction() == old(self).direction()
            },
            old(self).factor() >= old(self).count() && old(self).remaining() > 1 ==> {
                &&& final(self).in_range()
                &&& final(self).direction() == turned(old(self).direction().0, old(self).direction().1, 1)
                &&& step == Some(Cell(final(self).direction().0 as isize, final(self).direction().1 as isize))
            },
    {
        let ghost most: int = if self.count < 1 { 1 } else { self.count as int };
        assert(most * (-(self.x as int)) == -(most * self.x)) by (nonlinear_arith);
        self.factor += 1;
        if self.factor > self.count {
            self.factor = 1;
            self.remaining_directions -= 1;
            if self.remaining_directions <= 0 {
                return None;
            }
            let tmp = self.y;
            self.y = -self.x;
            self.x = tmp;
        }
        assert(-isize::MAX <= self.factor * self.x <= isize::MAX && -isize::MAX <= self.factor * self.y
            <= isize::MAX) by (nonlinear_arith)
            requires
                1 <= self.factor <= most,
                -isize::MAX <= most * self.x <= isize::MAX,
                -isize::MAX <= most * self.y <= isize::MAX,
        ;
        let cell = Cell(self.factor * self.x, self.factor * self.y);
        return Some(cell);
    }
}

} // verus!
