use vstd::prelude::*;
use crate::dancing_links::cells::Cell;

verus! {

/// The two neighbours that one cell records in one list.
#[derive(Clone, Copy, Debug, PartialEq, Eq, Structural)]
pub struct Link {
    pub prev: Cell,
    pub next: Cell,
}

/// A table of links addressed by cell. Several circular lists live side by
/// side in one table; a cell that was unlinked keeps its own two neighbours.
#[derive(Debug)]
pub struct LinkedList {
    pub data: Vec<Link>,
}

impl View for LinkedList {
    type V = Seq<Link>;

    open spec fn view(&self) -> Seq<Link> {
        self.data@
    }
}

/// The table after `b` was spliced in directly behind `a`.
pub open spec fn spliced(links: Seq<Link>, a: Cell, b: Cell) -> Seq<Link> {
    let c = links[a.0 as int].next;
    let l1 = links.update(b.0 as int, Link { prev: a, next: c });
    let l2 = l1.update(a.0 as int, Link { prev: l1[a.0 as int].prev, next: b });
    l2.update(c.0 as int, Link { prev: b, next: l2[c.0 as int].next })
}

/// The table after the neighbours of `b` were joined to each other. The entry
/// of `b` itself is kept, unless `b` is its own neighbour.
pub open spec fn unlinked(links: Seq<Link>, b: Cell) -> Seq<Link> {
    let a = links[b.0 as int].prev;
    let c = links[b.0 as int].next;
    let l1 = links.update(a.0 as int, Link { prev: links[a.0 as int].prev, next: c });
    l1.update(c.0 as int, Link { prev: a, next: l1[c.0 as int].next })
}

/// The table after the recorded neighbours of `b` were pointed back at `b`.
pub open spec fn relinked(links: Seq<Link>, b: Cell) -> Seq<Link> {
    let a = links[b.0 as int].prev;
    let c = links[b.0 as int].next;
    let l1 = links.update(a.0 as int, Link { prev: links[a.0 as int].prev, next: b });
    l1.update(c.0 as int, Link { prev: b, next: l1[c.0 as int].next })
}

/// `b` sits between its recorded neighbours: each of them points back at it.
pub open spec fn is_linked(links: Seq<Link>, b: Cell) -> bool {
    &&& b.0 < links.len()
    &&& links[b.0 as int].prev.0 < links.len()
    &&& links[b.0 as int].next.0 < links.len()
    &&& links[links[b.0 as int].prev.0 as int].next == b
    &&& links[links[b.0 as int].next.0 as int].prev == b
}

/// The cells met by following `next` from `from`, up to but without `stop`.
pub open spec fn walk(links: Seq<Link>, from: Cell, stop: Cell, fuel: nat) -> Seq<Cell>
    decreases fuel,
{
    if fuel == 0 || from == stop || from.0 >= links.len() {
        Seq::empty()
    } else {
        seq![from] + walk(links, links[from.0 as int].next, stop, (fuel - 1) as nat)
    }
}

/// The other members of the circular list of `h`, in `next` order from `h`.
pub open spec fn ring(links: Seq<Link>, h: Cell) -> Seq<Cell> {
    walk(links, links[h.0 as int].next, h, links.len())
}

/// `r` lists, in order and without repetition, the cells between `h` and `h`
/// again, and along it `prev` undoes `next`.
pub open spec fn is_ring(links: Seq<Link>, h: Cell, r: Seq<Cell>) -> bool {
    &&& h.0 < links.len()
    &&& r.len() < links.len()
    &&& r.no_duplicates()
    &&& forall|k: int| 0 <= k < r.len() ==> (#[trigger] r[k]).0 < links.len() && r[k] != h
    &&& links[h.0 as int].next == (if r.len() > 0 { r[0] } else { h })
    &&& links[h.0 as int].prev == (if r.len() > 0 { r[r.len() - 1] } else { h })
    &&& forall|k: int| 0 <= k < r.len() ==> (#[trigger] links[r[k].0 as int]).next
            == (if k + 1 < r.len() { r[k + 1] } else { h })
    &&& forall|k: int| 0 <= k < r.len() ==> (#[trigger] links[r[k].0 as int]).prev
            == (if k > 0 { r[k - 1] } else { h })
}

/// The list of `h` closes on itself and is doubly linked.
pub open spec fn has_ring(links: Seq<Link>, h: Cell) -> bool {
    is_ring(links, h, ring(links, h))
}

proof fn lemma_walk_suffix(links: Seq<Link>, h: Cell, r: Seq<Cell>, k: int, fuel: nat)
    requires
        is_ring(links, h, r),
        0 <= k <= r.len(),
        fuel >= r.len() - k,
    ensures
        walk(links, if k < r.len() { r[k] } else { h }, h, fuel) == r.subrange(k, r.len() as int),
    decreases r.len() - k,
{
    if k < r.len() {
        lemma_walk_suffix(links, h, r, k + 1, (fuel - 1) as nat);
        assert(seq![r[k]] + r.subrange(k + 1, r.len() as int) =~= r.subrange(k, r.len() as int));
    } else {
        assert(r.subrange(k, r.len() as int) =~= Seq::<Cell>::empty());
    }
}

/// A circular list has one listing only: the one that `ring` computes.
pub proof fn lemma_ring_unique(links: Seq<Link>, h: Cell, r: Seq<Cell>)
    requires
        is_ring(links, h, r),
    ensures
        ring(links, h) == r,
        has_ring(links, h),
{
    lemma_walk_suffix(links, h, r, 0, links.len());
    assert(r.subrange(0, r.len() as int) =~= r);
}

impl LinkedList {
    pub fn with_capacity(cap: usize) -> (list: LinkedList)
        ensures
            list@ == Seq::<Link>::empty(),
    {
        LinkedList { data: Vec::with_capacity(cap) }
    }

    /// Appends a cell that is a list by itself.
    pub fn allocate(&mut self) -> (cell: Cell)
        ensures
            cell.0 == old(self)@.len(),
            final(self)@ == old(self)@.push(Link { prev: cell, next: cell }),
    {
        let cell = Cell(self.data.len());
        self.data.push(Link { prev: cell, next: cell });
        cell
    }

    /// Inserts `b` into `a <-> c` to get `a <-> b <-> c`.
    pub fn insert(&mut self, a: Cell, b: Cell)
        requires
            a.0 < old(self)@.len(),
            b.0 < old(self)@.len(),
            old(self)@[a.0 as int].next.0 < old(self)@.len(),
        ensures
            final(self)@ == spliced(old(self)@, a, b),
    {
        let c = self.data[a.0].next;
        self.data[b.0].prev = a;
        self.data[b.0].next = c;

        self.data[a.0].next = b;
        self.data[c.0].prev = b;
    }

    /// Removes `b` from `a <-> b <-> c` to get `a <-> c`.
    pub fn remove(&mut self, b: Cell)
        requires
            b.0 < old(self)@.len(),
            old(self)@[b.0 as int].prev.0 < old(self)@.len(),
            old(self)@[b.0 as int].next.0 < old(self)@.len(),
        ensures
            final(self)@ == unlinked(old(self)@, b),
    {
        let a = self.data[b.0].prev;
        let c = self.data[b.0].next;

        self.data[a.0].next = self.data[b.0].next;
        self.data[c.0].prev = self.data[b.0].prev;
    }

    /// Restores previously removed `b` to get `a <-> b <-> c`.
    pub fn restore(&mut self, b: Cell)
        requires
            b.0 < old(self)@.len(),
            old(self)@[b.0 as int].prev.0 < old(self)@.len(),
            old(self)@[b.0 as int].next.0 < old(self)@.len(),
        ensures
            final(self)@ == relinked(old(self)@, b),
    {
        let a = self.data[b.0].prev;
        let c = self.data[b.0].next;
        self.data[a.0].next = b;
        self.data[c.0].prev = b;
    }
}

} // verus!
