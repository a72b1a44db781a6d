use vstd::prelude::*;
use crate::dancing_links::cells::Cell;
use crate::dancing_links::links::LinkedList;

verus! {

/// A position on a circular list, together with the cell the walk began at.
/// A step that lands on that cell again reports the end of the walk.
pub struct Cursor {
    head: Cell,
    curr: Cell,
}

impl Cursor {
    /// The cell the walk began at.
    pub closed spec fn head(&self) -> Cell {
        self.head
    }

    /// The cell the cursor stands on.
    pub closed spec fn position(&self) -> Cell {
        self.curr
    }

    pub fn from_head(head: Cell) -> (cursor: Cursor)
        ensures
            cursor.head() == head,
            cursor.position() == head,
    {
        Cursor { head, curr: head }
    }

    pub fn next(&mut self, list: &LinkedList) -> (step: Option<Cell>)
        requires
            old(self).position().0 < list@.len(),
        ensures
            final(self).head() == old(self).head(),
            final(self).position() == list@[old(self).position().0 as int].next,
            step == if final(self).position() == final(self).head() {
                None
            } else {
                Some(final(self).position())
            },
    {
        self.curr = list.data[self.curr.0].next;
        if self.curr == self.head {
            return None;
        }
        Some(self.curr)
    }

    pub fn prev(&mut self, list: &LinkedList) -> (step: Option<Cell>)
        requires
            old(self).position().0 < list@.len(),
        ensures
            final(self).head() == old(self).head(),
            final(self).position() == list@[old(self).position().0 as int].prev,
            step == if final(self).position() == final(self).head() {
                None
            } else {
                Some(final(self).position())
            },
    {
        self.curr = list.data[self.curr.0].prev;
        if self.curr == self.head {
            return None;
        }
        Some(self.curr)
    }
}

} // verus!
