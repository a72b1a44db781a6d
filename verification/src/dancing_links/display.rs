use vstd::prelude::*;
use crate::dancing_links::cells::Cell;
use crate::dancing_links::links::{Link, LinkedList};
use crate::dancing_links::matrix::{Matrix, MatrixView};
use crate::text::{centered, decimal, push_centered, push_decimal, text_of};

verus! {

/// A line that begins with `label`.
pub open spec fn label(mark: char) -> Seq<char> {
    seq![mark, ':', ' ']
}

/// The first `n` sizes, each in a field of five characters.
pub open spec fn sizes_text(sizes: Seq<usize>, n: int) -> Seq<char>
    decreases n,
{
    if n <= 0 {
        Seq::empty()
    } else {
        sizes_text(sizes, n - 1) + centered(sizes[n - 1] as nat, 5)
    }
}

/// The number of the column of a header, counted from zero; the sentinel
/// counts as the first column.
pub open spec fn column_number(header: Cell) -> nat {
    if header.0 == 0 {
        0
    } else {
        (header.0 - 1) as nat
    }
}

/// For the first `n` cells the number of their column, each in a field of
/// five characters.
pub open spec fn headers_text(headers: Seq<Cell>, n: int) -> Seq<char>
    decreases n,
{
    if n <= 0 {
        Seq::empty()
    } else {
        headers_text(headers, n - 1) + centered(column_number(headers[n - 1]), 5)
    }
}

/// A link as `prev|next` between two spaces.
pub open spec fn link_text(link: Link) -> Seq<char> {
    seq![' '] + decimal(link.prev.0 as nat) + seq!['|'] + decimal(link.next.0 as nat) + seq![' ']
}

/// The first `n` links, one behind the other.
pub open spec fn links_text(links: Seq<Link>, n: int) -> Seq<char>
    decreases n,
{
    if n <= 0 {
        Seq::empty()
    } else {
        links_text(links, n - 1) + link_text(links[n - 1])
    }
}

/// The numbers below `n`, each in a field of five characters.
pub open spec fn index_text(n: int) -> Seq<char>
    decreases n,
{
    if n <= 0 {
        Seq::empty()
    } else {
        index_text(n - 1) + centered((n - 1) as nat, 5)
    }
}

/// The matrix as five lines of text: the column sizes, the column of each
/// cell, the links of `vlinks`, the links of `hlinks`, and the index of each
/// cell.
pub open spec fn rendered(matrix: MatrixView) -> Seq<char> {
    label('s') + sizes_text(matrix.sizes, matrix.sizes.len() as int) + seq!['\n'] + label('c') + headers_text(
        matrix.headers,
        matrix.headers.len() as int,
    ) + seq!['\n'] + label('x') + links_text(matrix.vlinks, matrix.vlinks.len() as int) + seq!['\n'] + label('y')
        + links_text(matrix.hlinks, matrix.hlinks.len() as int) + seq!['\n'] + label('i') + index_text(
        matrix.hlinks.len() as int,
    ) + seq!['\n']
}

fn push_label(mark: char, out: &mut Vec<char>)
    ensures
        final(out)@ == old(out)@ + label(mark),
{
    out.push(mark);
    out.push(':');
    out.push(' ');
    assert(out@ =~= old(out)@ + label(mark));
}

fn push_links(list: &LinkedList, out: &mut Vec<char>)
    ensures
        final(out)@ == old(out)@ + links_text(list@, list@.len() as int),
{
    let mut n: usize = 0;
    assert(out@ =~= old(out)@ + links_text(list@, 0));
    while n < list.data.len()
        invariant
            n <= list@.len(),
            out@ == old(out)@ + links_text(list@, n as int),
        decreases list@.len() - n,
    {
        let ghost before = out@;
        let link = list.data[n];
        out.push(' ');
        push_decimal(link.prev.0, out);
        out.push('|');
        push_decimal(link.next.0, out);
        out.push(' ');
        n += 1;
        assert(out@ =~= before + link_text(link));
        assert(out@ =~= old(out)@ + links_text(list@, n as int));
    }
}

impl Matrix {
    /// The matrix as text, for a look at its tables.
    #[verifier::rlimit(50)]
    pub fn to_string(&self) -> (text: String)
        ensures
            text@ == rendered(self@),
    {
        let mut out: Vec<char> = Vec::new();
        push_label('s', &mut out);
        let ghost start = out@;
        let mut n: usize = 0;
        assert(out@ =~= start + sizes_text(self@.sizes, 0));
        while n < self.sizes.len()
            invariant
                n <= self@.sizes.len(),
                out@ == start + sizes_text(self@.sizes, n as int),
            decreases self@.sizes.len() - n,
        {
            push_centered(self.sizes[n], 5, &mut out);
            n += 1;
            assert(out@ =~= start + sizes_text(self@.sizes, n as int));
        }
        out.push('\n');
        push_label('c', &mut out);
        let ghost start = out@;
        let mut n: usize = 0;
        assert(out@ =~= start + headers_text(self@.headers, 0));
        while n < self.headers.len()
            invariant
                n <= self@.headers.len(),
                out@ == start + headers_text(self@.headers, n as int),
            decreases self@.headers.len() - n,
        {
            let c = self.headers[n].0;
            push_centered(c.saturating_sub(1), 5, &mut out);
            n += 1;
            assert(out@ =~= start + headers_text(self@.headers, n as int));
        }
        out.push('\n');
        push_label('x', &mut out);
        push_links(&self.vlinks, &mut out);
        out.push('\n');
        push_label('y', &mut out);
        push_links(&self.hlinks, &mut out);
        out.push('\n');
        push_label('i', &mut out);
        let ghost start = out@;
        let mut i: usize = 0;
        assert(out@ =~= start + index_text(0));
        while i < self.hlinks.data.len()
            invariant
                i <= self@.hlinks.len(),
                out@ == start + index_text(i as int),
            decreases self@.hlinks.len() - i,
        {
            push_centered(i, 5, &mut out);
            i += 1;
            assert(out@ =~= start + index_text(i as int));
        }
        out.push('\n');
        assert(out@ =~= rendered(self@));
        text_of(&out)
    }
}

} // verus!
