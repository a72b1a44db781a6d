use vstd::prelude::*;
use crate::dancing_links::cells::Cell;
use crate::dancing_links::links::{Link, is_linked, is_ring, lemma_ring_unique, relinked, ring, spliced, unlinked};

verus! {

/// The listing of the same circular list as seen from its member `r[p]`.
pub open spec fn rotated(h: Cell, r: Seq<Cell>, p: int) -> Seq<Cell> {
    r.subrange(p + 1, r.len() as int) + seq![h] + r.subrange(0, p)
}

/// A table that agrees with another on the anchor and the members of a
/// circular list holds the same list.
pub proof fn lemma_ring_frame(links: Seq<Link>, other: Seq<Link>, h: Cell, r: Seq<Cell>)
    requires
        is_ring(links, h, r),
        other.len() >= links.len(),
        other[h.0 as int] == links[h.0 as int],
        forall|k: int| 0 <= k < r.len() ==> other[(#[trigger] r[k]).0 as int] == links[r[k].0 as int],
    ensures
        is_ring(other, h, r),
        ring(other, h) == r,
{
    lemma_ring_unique(other, h, r);
}

/// Unlinking a member shortens the list by that member, leaves every entry but
/// those of its two neighbours as it was, and is undone by relinking it.
#[verifier::rlimit(50)]
pub proof fn lemma_unlink_member(links: Seq<Link>, h: Cell, r: Seq<Cell>, p: int)
    requires
        is_ring(links, h, r),
        0 <= p < r.len(),
    ensures
        is_linked(links, r[p]),
        unlinked(links, r[p]).len() == links.len(),
        is_ring(unlinked(links, r[p]), h, r.remove(p)),
        ring(unlinked(links, r[p]), h) == r.remove(p),
        unlinked(links, r[p])[r[p].0 as int] == links[r[p].0 as int],
        forall|x: int|
            0 <= x < links.len() && x != links[r[p].0 as int].prev.0 && x != links[r[p].0 as int].next.0
                ==> #[trigger] unlinked(links, r[p])[x] == links[x],
        links[r[p].0 as int].prev == (if p > 0 { r[p - 1] } else { h }),
        links[r[p].0 as int].next == (if p + 1 < r.len() { r[p + 1] } else { h }),
        relinked(unlinked(links, r[p]), r[p]) == links,
{
    let b = r[p];
    let a = links[b.0 as int].prev;
    let c = links[b.0 as int].next;
    let out = unlinked(links, b);
    let s = r.remove(p);
    assert(a == (if p > 0 { r[p - 1] } else { h }));
    assert(c == (if p + 1 < r.len() { r[p + 1] } else { h }));
    assert(a != b && c != b);
    assert(s.len() == r.len() - 1);
    assert forall|k: int| 0 <= k < s.len() implies s[k] == (if k < p { r[k] } else { r[k + 1] }) by {}
    assert(s.no_duplicates()) by {
        assert forall|i: int, j: int| 0 <= i < s.len() && 0 <= j < s.len() && i != j implies s[i] != s[j] by {
            let ii = if i < p { i } else { i + 1 };
            let jj = if j < p { j } else { j + 1 };
            assert(s[i] == r[ii] && s[j] == r[jj]);
        }
    }
    assert forall|k: int| 0 <= k < s.len() implies (#[trigger] out[s[k].0 as int]).next == (if k + 1 < s.len() {
        s[k + 1]
    } else {
        h
    }) by {
        let kk = if k < p { k } else { k + 1 };
        assert(s[k] == r[kk]);
        if kk + 1 < r.len() {
            assert(r[kk + 1].0 < links.len());
        }
    }
    assert forall|k: int| 0 <= k < s.len() implies (#[trigger] out[s[k].0 as int]).prev == (if k > 0 {
        s[k - 1]
    } else {
        h
    }) by {
        let kk = if k < p { k } else { k + 1 };
        assert(s[k] == r[kk]);
        if kk > 0 {
            assert(r[kk - 1].0 < links.len());
        }
    }
    assert forall|k: int| 0 <= k < s.len() implies (#[trigger] s[k]).0 < out.len() && s[k] != h by {
        let kk = if k < p { k } else { k + 1 };
        assert(s[k] == r[kk]);
    }
    assert(is_ring(out, h, s));
    lemma_ring_unique(out, h, s);
    assert(relinked(out, b) =~= links);
}

/// Splicing a fresh cell in behind the last member appends it to the list and
/// leaves every entry but those of the last member, the anchor and the cell
/// itself as it was.
#[verifier::rlimit(50)]
pub proof fn lemma_splice_last(links: Seq<Link>, h: Cell, r: Seq<Cell>, b: Cell)
    requires
        is_ring(links, h, r),
        b.0 < links.len(),
        b != h,
        !r.contains(b),
        r.len() + 1 < links.len(),
    ensures
        links[h.0 as int].prev == (if r.len() > 0 { r[r.len() - 1] } else { h }),
        links[links[h.0 as int].prev.0 as int].next == h,
        spliced(links, links[h.0 as int].prev, b).len() == links.len(),
        is_ring(spliced(links, links[h.0 as int].prev, b), h, r.push(b)),
        ring(spliced(links, links[h.0 as int].prev, b), h) == r.push(b),
        forall|x: int|
            0 <= x < links.len() && x != links[h.0 as int].prev.0 && x != b.0 && x != h.0
                ==> #[trigger] spliced(links, links[h.0 as int].prev, b)[x] == links[x],
{
    let a = links[h.0 as int].prev;
    let out = spliced(links, a, b);
    let s = r.push(b);
    assert(a != b) by {
        if r.len() > 0 {
            assert(r.contains(r[r.len() - 1]));
        }
    }
    assert(s.no_duplicates()) by {
        assert forall|i: int, j: int| 0 <= i < s.len() && 0 <= j < s.len() && i != j implies s[i] != s[j] by {
            if i < r.len() {
                assert(r.contains(r[i]));
            }
            if j < r.len() {
                assert(r.contains(r[j]));
            }
        }
    }
    assert forall|k: int| 0 <= k < s.len() implies (#[trigger] s[k]).0 < out.len() && s[k] != h by {
        if k < r.len() {
            assert(s[k] == r[k]);
        }
    }
    assert forall|k: int| 0 <= k < s.len() implies (#[trigger] out[s[k].0 as int]).next == (if k + 1 < s.len() {
        s[k + 1]
    } else {
        h
    }) by {
        if k < r.len() {
            assert(s[k] == r[k]);
            assert(r.contains(r[k]));
        }
    }
    assert forall|k: int| 0 <= k < s.len() implies (#[trigger] out[s[k].0 as int]).prev == (if k > 0 {
        s[k - 1]
    } else {
        h
    }) by {
        if k < r.len() {
            assert(s[k] == r[k]);
            assert(r.contains(r[k]));
        }
    }
    assert(is_ring(out, h, s));
    lemma_ring_unique(out, h, s);
}

/// Seen from one of its members, a circular list is the same cycle begun one
/// step behind that member.
#[verifier::rlimit(50)]
pub proof fn lemma_rotate(links: Seq<Link>, h: Cell, r: Seq<Cell>, p: int)
    requires
        is_ring(links, h, r),
        0 <= p < r.len(),
    ensures
        is_ring(links, r[p], rotated(h, r, p)),
        ring(links, r[p]) == rotated(h, r, p),
{
    let n = r.len() as int;
    let s = rotated(h, r, p);
    assert(s.len() == n);
    assert forall|k: int| 0 <= k < n implies #[trigger] s[k] == (if k < n - p - 1 {
        r[k + p + 1]
    } else if k == n - p - 1 {
        h
    } else {
        r[k - (n - p)]
    }) by {}
    assert(s.no_duplicates()) by {
        assert forall|i: int, j: int| 0 <= i < n && 0 <= j < n && i != j implies s[i] != s[j] by {
            if i < n - p - 1 {
                assert(s[i] == r[i + p + 1]);
            } else if i > n - p - 1 {
                assert(s[i] == r[i - (n - p)]);
            }
            if j < n - p - 1 {
                assert(s[j] == r[j + p + 1]);
            } else if j > n - p - 1 {
                assert(s[j] == r[j - (n - p)]);
            }
        }
    }
    assert forall|k: int| 0 <= k < n implies (#[trigger] s[k]).0 < links.len() && s[k] != r[p] by {
        if k < n - p - 1 {
            assert(s[k] == r[k + p + 1]);
        } else if k > n - p - 1 {
            assert(s[k] == r[k - (n - p)]);
        }
    }
    assert forall|k: int| 0 <= k < n implies (#[trigger] links[s[k].0 as int]).next == (if k + 1 < n {
        s[k + 1]
    } else {
        r[p]
    }) by {
        if k < n - p - 1 {
            assert(s[k] == r[k + p + 1]);
        } else if k > n - p - 1 {
            assert(s[k] == r[k - (n - p)]);
        }
    }
    assert forall|k: int| 0 <= k < n implies (#[trigger] links[s[k].0 as int]).prev == (if k > 0 {
        s[k - 1]
    } else {
        r[p]
    }) by {
        if k < n - p - 1 {
            assert(s[k] == r[k + p + 1]);
        } else if k > n - p - 1 {
            assert(s[k] == r[k - (n - p)]);
        }
    }
    assert(is_ring(links, r[p], s));
    lemma_ring_unique(links, r[p], s);
}

} // verus!
