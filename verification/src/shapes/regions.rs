use vstd::prelude::*;
use crate::shapes::cells::Cell;

verus! {

/// A set of positions that a rule treats as one: a row, a column, a box, a
/// diagonal.
#[derive(Debug, PartialEq, Eq, PartialOrd, Ord)]
pub struct Region {
    pub cells: Vec<Cell>,
}

impl View for Region {
    type V = Seq<Cell>;

    open spec fn view(&self) -> Seq<Cell> {
        self.cells@
    }
}

impl Clone for Region {
    fn clone(&self) -> (copy: Region)
        ensures
            copy@ == self@,
    {
        let mut cells: Vec<Cell> = Vec::new();
        let mut i: usize = 0;
        while i < self.cells.len()
            invariant
                i <= self.cells.len(),
                cells@ == self.cells@.take(i as int),
            decreases self.cells.len() - i,
        {
            cells.push(self.cells[i]);
            i += 1;
            assert(cells@ =~= self.cells@.take(i as int));
        }
        assert(cells@ =~= self.cells@);
        Region { cells }
    }
}

/// The row at height `position`, `size` cells wide, left to right.
pub open spec fn row_at(position: int, size: int) -> Seq<Cell> {
    Seq::new(size as nat, |i: int| Cell(i as isize, position as isize))
}

/// The column at `position`, `size` cells high, top to bottom.
pub open spec fn column_at(position: int, size: int) -> Seq<Cell> {
    Seq::new(size as nat, |i: int| Cell(position as isize, i as isize))
}

/// The first `n` of the strips `strip(0)`, `strip(1)`, ... laid end to end.
pub open spec fn strips(n: int, strip: spec_fn(int) -> Seq<Cell>) -> Seq<Cell>
    decreases n,
{
    if n <= 0 {
        Seq::empty()
    } else {
        strips(n - 1, strip) + strip(n - 1)
    }
}

/// The box of `width` by `height` cells with its corner at `(left, top)`,
/// column by column.
pub open spec fn box_at(left: int, top: int, width: int, height: int) -> Seq<Cell> {
    strips(width, |x: int| Seq::new(height as nat, |y: int| Cell((left + x) as isize, (top + y) as isize)))
}

/// The cells at `(left + x * width, top + y * height)` for `x` below `width`
/// and `y` below `height`: one cell out of each box of a grid of boxes.
pub open spec fn scattered_at(left: int, top: int, width: int, height: int) -> Seq<Cell> {
    strips(
        width,
        |x: int| Seq::new(height as nat, |y: int| Cell((left + x * width) as isize, (top + y * height) as isize)),
    )
}

/// The diagonal from the top left corner.
pub open spec fn diagonal_of(size: int) -> Seq<Cell> {
    Seq::new(size as nat, |i: int| Cell(i as isize, i as isize))
}

/// The diagonal from the top right corner.
pub open spec fn reverse_diagonal_of(size: int) -> Seq<Cell> {
    Seq::new(size as nat, |i: int| Cell((size - i - 1) as isize, i as isize))
}

impl Region {
    fn row(position: usize, size: usize) -> (region: Region)
        requires
            position <= isize::MAX,
            size <= isize::MAX,
        ensures
            region@ == row_at(position as int, size as int),
    {
        let mut cells: Vec<Cell> = Vec::new();
        let mut index: usize = 0;
        while index < size
            invariant
                index <= size <= isize::MAX,
                position <= isize::MAX,
                cells@ == row_at(position as int, index as int),
            decreases size - index,
        {
            cells.push(Cell(index as isize, position as isize));
            index += 1;
            assert(cells@ =~= row_at(position as int, index as int));
        }
        Region { cells }
    }

    /// The `count` rows of a grid that is `size` cells wide, top to bottom.
    pub fn rows(count: usize, size: usize) -> (regions: Vec<Region>)
        requires
            count <= isize::MAX,
            size <= isize::MAX,
        ensures
            regions@.len() == count,
            forall|i: int| 0 <= i < count ==> (#[trigger] regions@[i])@ == row_at(i, size as int),
    {
        let mut regions: Vec<Region> = Vec::new();
        let mut index: usize = 0;
        while index < count
            invariant
                index <= count <= isize::MAX,
                size <= isize::MAX,
                regions@.len() == index,
                forall|i: int| 0 <= i < index ==> (#[trigger] regions@[i])@ == row_at(i, size as int),
            decreases count - index,
        {
            regions.push(Region::row(index, size));
            index += 1;
        }
        regions
    }

    fn column(position: usize, size: usize) -> (region: Region)
        requires
            position <= isize::MAX,
            size <= isize::MAX,
        ensures
            region@ == column_at(position as int, size as int),
    {
        let mut cells: Vec<Cell> = Vec::new();
        let mut index: usize = 0;
        while index < size
            invariant
                index <= size <= isize::MAX,
                position <= isize::MAX,
                cells@ == column_at(position as int, index as int),
            decreases size - index,
        {
            cells.push(Cell(position as isize, index as isize));
            index += 1;
            assert(cells@ =~= column_at(position as int, index as int));
        }
        Region { cells }
    }

    /// The `count` columns of a grid that is `size` cells high, left to
    /// right.
    pub fn columns(count: usize, size: usize) -> (regions: Vec<Region>)
        requires
            count <= isize::MAX,
            size <= isize::MAX,
        ensures
            regions@.len() == count,
            forall|i: int| 0 <= i < count ==> (#[trigger] regions@[i])@ == column_at(i, size as int),
    {
        let mut regions: Vec<Region> = Vec::new();
        let mut index: usize = 0;
        while index < count
            invariant
                index <= count <= isize::MAX,
                size <= isize::MAX,
                regions@.len() == index,
                forall|i: int| 0 <= i < index ==> (#[trigger] regions@[i])@ == column_at(i, size as int),
            decreases count - index,
        {
            regions.push(Region::column(index, size));
            index += 1;
        }
        regions
    }

    #[verifier::rlimit(50)]
    fn grid_box(v_offset: usize, h_offset: usize, width: usize, height: usize) -> (region: Region)
        requires
            (v_offset + 1) * width <= isize::MAX,
            (h_offset + 1) * height <= isize::MAX,
        ensures
            region@ == box_at(v_offset * width, h_offset * height, width as int, height as int),
    {
        assert(v_offset * width + width == (v_offset + 1) * width) by (nonlinear_arith);
        assert(h_offset * height + height == (h_offset + 1) * height) by (nonlinear_arith);
        assert(0 <= v_offset * width && 0 <= h_offset * height) by (nonlinear_arith);
        let left = v_offset * width;
        let top = h_offset * height;
        let ghost strip = |x: int|
            Seq::new(height as nat, |y: int| Cell((left + x) as isize, (top + y) as isize));
        let mut cells: Vec<Cell> = Vec::new();
        let mut x: usize = 0;
        while x < width
            invariant
                x <= width,
                left + width <= isize::MAX,
                top + height <= isize::MAX,
                strip == |x: int| Seq::new(height as nat, |y: int| Cell((left + x) as isize, (top + y) as isize)),
                cells@ == strips(x as int, strip),
            decreases width - x,
        {
            let ghost before = cells@;
            let mut y: usize = 0;
            while y < height
                invariant
                    y <= height,
                    x < width,
                    left + width <= isize::MAX,
                    top + height <= isize::MAX,
                    cells@ == before + Seq::new(y as nat, |y: int| Cell((left + x) as isize, (top + y) as isize)),
                decreases height - y,
            {
                cells.push(Cell((left + x) as isize, (top + y) as isize));
                y += 1;
                assert(cells@ =~= before + Seq::new(
                    y as nat,
                    |y: int| Cell((left + x) as isize, (top + y) as isize),
                ));
            }
            assert(strip(x as int) =~= Seq::new(
                height as nat,
                |y: int| Cell((left + x) as isize, (top + y) as isize),
            ));
            x += 1;
        }
        Region { cells }
    }

    /// The boxes of a grid of `v_count` by `h_count` boxes, each `width` by
    /// `height` cells: row of boxes after row of boxes, each from the left.
    #[verifier::rlimit(50)]
    pub fn grid_boxes(v_count: usize, h_count: usize, width: usize, height: usize) -> (regions: Vec<Region>)
        requires
            v_count * width <= isize::MAX,
            h_count * height <= isize::MAX,
            v_count * h_count <= usize::MAX,
        ensures
            regions@.len() == v_count * h_count,
            forall|h: int, v: int|
                0 <= h < h_count && 0 <= v < v_count ==> (#[trigger] regions@[h * v_count + v])@ == box_at(
                    v * width,
                    h * height,
                    width as int,
                    height as int,
                ),
    {
        let mut regions: Vec<Region> = Vec::new();
        let mut h_offset: usize = 0;
        while h_offset < h_count
            invariant
                h_offset <= h_count,
                v_count * width <= isize::MAX,
                h_count * height <= isize::MAX,
                regions@.len() == h_offset * v_count,
                forall|h: int, v: int|
                    0 <= h < h_offset && 0 <= v < v_count ==> (#[trigger] regions@[h * v_count + v])@ == box_at(
                        v * width,
                        h * height,
                        width as int,
                        height as int,
                    ),
            decreases h_count - h_offset,
        {
            let ghost before = regions@;
            let mut v_offset: usize = 0;
            while v_offset < v_count
                invariant
                    v_offset <= v_count,
                    h_offset < h_count,
                    v_count * width <= isize::MAX,
                    h_count * height <= isize::MAX,
                    before.len() == h_offset * v_count,
                    regions@.len() == h_offset * v_count + v_offset,
                    forall|i: int| 0 <= i < before.len() ==> regions@[i] == before[i],
                    forall|v: int|
                        0 <= v < v_offset ==> (#[trigger] regions@[h_offset * v_count + v])@ == box_at(
                            v * width,
                            h_offset * height,
                            width as int,
                            height as int,
                        ),
                decreases v_count - v_offset,
            {
                assert((v_offset + 1) * width <= v_count * width) by (nonlinear_arith)
                    requires
                        v_offset < v_count,
                ;
                assert((h_offset + 1) * height <= h_count * height) by (nonlinear_arith)
                    requires
                        h_offset < h_count,
                ;
                regions.push(Region::grid_box(v_offset, h_offset, width, height));
                v_offset += 1;
            }
            assert((h_offset + 1) * v_count == h_offset * v_count + v_count) by (nonlinear_arith);
            assert forall|h: int, v: int| 0 <= h < h_offset + 1 && 0 <= v < v_count implies (
            #[trigger] regions@[h * v_count + v])@ == box_at(v * width, h * height, width as int, height as int) by {
                if h < h_offset {
                    assert(h * v_count + v < h_offset * v_count) by (nonlinear_arith)
                        requires
                            0 <= h < h_offset,
                            0 <= v < v_count,
                    ;
                    assert(0 <= h * v_count + v) by (nonlinear_arith)
                        requires
                            0 <= h,
                            0 <= v,
                            0 <= v_count,
                    ;
                    assert(regions@[h * v_count + v] == before[h * v_count + v]);
                }
            }
            h_offset += 1;
        }
        assert(h_count * v_count == v_count * h_count) by (nonlinear_arith);
        regions
    }

    #[verifier::rlimit(50)]
    fn offset_box(v_offset: usize, h_offset: usize, width: usize, height: usize) -> (region: Region)
        requires
            v_offset + width * width <= isize::MAX,
            h_offset + height * height <= isize::MAX,
        ensures
            region@ == scattered_at(v_offset as int, h_offset as int, width as int, height as int),
    {
        let ghost strip = |x: int|
            Seq::new(
                height as nat,
                |y: int| Cell((v_offset + x * width) as isize, (h_offset + y * height) as isize),
            );
        let mut cells: Vec<Cell> = Vec::new();
        let mut x: usize = 0;
        while x < width
            invariant
                x <= width,
                v_offset + width * width <= isize::MAX,
                h_offset + height * height <= isize::MAX,
                strip == |x: int|
                    Seq::new(
                        height as nat,
                        |y: int| Cell((v_offset + x * width) as isize, (h_offset + y * height) as isize),
                    ),
                cells@ == strips(x as int, strip),
            decreases width - x,
        {
            let ghost before = cells@;
            assert(0 <= x * width <= width * width) by (nonlinear_arith)
                requires
                    0 <= x < width,
            ;
            let mut y: usize = 0;
            while y < height
                invariant
                    y <= height,
                    x < width,
                    0 <= x * width <= width * width,
                    v_offset + width * width <= isize::MAX,
                    h_offset + height * height <= isize::MAX,
                    cells@ == before + Seq::new(
                        y as nat,
                        |y: int| Cell((v_offset + x * width) as isize, (h_offset + y * height) as isize),
                    ),
                decreases height - y,
            {
                assert(0 <= y * height <= height * height) by (nonlinear_arith)
                    requires
                        0 <= y < height,
                ;
                cells.push(Cell((v_offset + x * width) as isize, (h_offset + y * height) as isize));
                y += 1;
                assert(cells@ =~= before + Seq::new(
                    y as nat,
                    |y: int| Cell((v_offset + x * width) as isize, (h_offset + y * height) as isize),
                ));
            }
            assert(strip(x as int) =~= Seq::new(
                height as nat,
                |y: int| Cell((v_offset + x * width) as isize, (h_offset + y * height) as isize),
            ));
            x += 1;
        }
        Region { cells }
    }

    /// For a grid of boxes of `width` by `height` cells, the regions made of
    /// the cells that stand at the same place in their boxes: the region of
    /// the place `(v, h)` holds the cells `(v + x * width, h + y * height)`.
    #[verifier::rlimit(50)]
    pub fn offset_boxes(v_count: usize, h_count: usize, width: usize, height: usize) -> (regions: Vec<Region>)
        requires
            v_count + width * width <= isize::MAX,
            h_count + height * height <= isize::MAX,
            v_count * h_count <= usize::MAX,
        ensures
            regions@.len() == v_count * h_count,
            forall|h: int, v: int|
                0 <= h < h_count && 0 <= v < v_count ==> (#[trigger] regions@[h * v_count + v])@ == scattered_at(
                    v,
                    h,
                    width as int,
                    height as int,
                ),
    {
        let mut regions: Vec<Region> = Vec::new();
        let mut h_offset: usize = 0;
        while h_offset < h_count
            invariant
                h_offset <= h_count,
                v_count + width * width <= isize::MAX,
                h_count + height * height <= isize::MAX,
                regions@.len() == h_offset * v_count,
                forall|h: int, v: int|
                    0 <= h < h_offset && 0 <= v < v_count ==> (#[trigger] regions@[h * v_count + v])@
                        == scattered_at(v, h, width as int, height as int),
            decreases h_count - h_offset,
        {
            let ghost before = regions@;
            let mut v_offset: usize = 0;
            while v_offset < v_count
                invariant
                    v_offset <= v_count,
                    h_offset < h_count,
                    v_count + width * width <= isize::MAX,
                    h_count + height * height <= isize::MAX,
                    before.len() == h_offset * v_count,
                    regions@.len() == h_offset * v_count + v_offset,
                    forall|i: int| 0 <= i < before.len() ==> regions@[i] == before[i],
                    forall|v: int|
                        0 <= v < v_offset ==> (#[trigger] regions@[h_offset * v_count + v])@ == scattered_at(
                            v,
                            h_offset as int,
                            width as int,
                            height as int,
                        ),
                decreases v_count - v_offset,
            {
                regions.push(Region::offset_box(v_offset, h_offset, width, height));
                v_offset += 1;
            }
            assert((h_offset + 1) * v_count == h_offset * v_count + v_count) by (nonlinear_arith);
            assert forall|h: int, v: int| 0 <= h < h_offset + 1 && 0 <= v < v_count implies (
            #[trigger] regions@[h * v_count + v])@ == scattered_at(v, h, width as int, height as int) by {
                if h < h_offset {
                    assert(h * v_count + v < h_offset * v_count) by (nonlinear_arith)
                        requires
                            0 <= h < h_offset,
                            0 <= v < v_count,
                    ;
                    assert(0 <= h * v_count + v) by (nonlinear_arith)
                        requires
                            0 <= h,
                            0 <= v,
                            0 <= v_count,
                    ;
                    assert(regions@[h * v_count + v] == before[h * v_count + v]);
                }
            }
            h_offset += 1;
        }
        assert(h_count * v_count == v_count * h_count) by (nonlinear_arith);
        regions
    }

    /// The diagonal of a square grid from the top left corner.
    pub fn diagonal(size: usize) -> (region: Region)
        requires
            size <= isize::MAX,
        ensures
            region@ == diagonal_of(size as int),
    {
        let mut cells: Vec<Cell> = Vec::new();
        let mut offset: usize = 0;
        while offset < size
            invariant
                offset <= size <= isize::MAX,
                cells@ == diagonal_of(offset as int),
            decreases size - offset,
        {
            cells.push(Cell(offset as isize, offset as isize));
            offset += 1;
            assert(cells@ =~= diagonal_of(offset as int));
        }
        Region { cells }
    }

    /// The diagonal of a square grid from the top right corner.
    pub fn reverse_diagonal(size: usize) -> (region: Region)
        requires
            size <= isize::MAX,
        ensures
            region@ == reverse_diagonal_of(size as int),
    {
        let mut cells: Vec<Cell> = Vec::new();
        let mut offset: usize = 0;
        while offset < size
            invariant
                offset <= size <= isize::MAX,
                cells@ == Seq::new(offset as nat, |i: int| Cell((size - i - 1) as isize, i as isize)),
            decreases size - offset,
        {
            cells.push(Cell((size - offset - 1) as isize, offset as isize));
            offset += 1;
            assert(cells@ =~= Seq::new(offset as nat, |i: int| Cell((size - i - 1) as isize, i as isize)));
        }
        Region { cells }
    }
}

} // verus!
