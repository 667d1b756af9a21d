//! Slots linked into a ring by index, and what splicing a slot in or taking
//! one out does to the links.
use vstd::prelude::*;

verus! {

/// One position of the ring: the links to its neighbours, the stamp of the
/// element it currently holds, and that element (absent for the sentinel and
/// for unused slots).
pub(crate) struct Slot<T> {
    pub(crate) prev: usize,
    pub(crate) next: usize,
    pub(crate) stamp: u64,
    pub(crate) value: Option<T>,
}

/// Read along `ring`, each slot's `next` names the following slot and each
/// slot's `prev` the preceding one, the last slot leading back to the first.
#[verifier::opaque]
pub(crate) closed spec fn links_ok<T>(slots: Seq<Slot<T>>, ring: Seq<usize>) -> bool {
    let n = ring.len() as int;
    &&& n >= 1
    &&& forall|k: int| 0 <= k < n ==> #[trigger] ring[k] < slots.len()
    &&& forall|k: int| 0 <= k < n - 1 ==> (#[trigger] slots[ring[k] as int]).next == ring[k + 1]
    &&& forall|k: int| 0 < k < n ==> (#[trigger] slots[ring[k] as int]).prev == ring[k - 1]
    &&& slots[ring[n - 1] as int].next == ring[0]
    &&& slots[ring[0] as int].prev == ring[n - 1]
}

/// A ring of the one slot 0, linked to itself.
pub(crate) proof fn lemma_links_single<T>(s: Seq<Slot<T>>)
    requires
        s.len() >= 1,
        s[0].next == 0,
        s[0].prev == 0,
    ensures
        links_ok(s, seq![0usize]),
{
    reveal(links_ok);
}

/// Links depend on the slots' `next` and `prev` alone.
pub(crate) proof fn lemma_links_same<T>(s: Seq<Slot<T>>, s2: Seq<Slot<T>>, r: Seq<usize>)
    requires
        links_ok(s, r),
        s2.len() == s.len(),
        forall|j: int| 0 <= j < s.len() ==> s2[j].next == s[j].next && s2[j].prev == s[j].prev,
    ensures
        links_ok(s2, r),
{
    reveal(links_ok);
}

/// The neighbours of the slot at position `k` of a consistent ring.
pub(crate) proof fn lemma_links_at<T>(s: Seq<Slot<T>>, r: Seq<usize>, k: int)
    requires
        links_ok(s, r),
        0 <= k < r.len(),
    ensures
        r[k] < s.len(),
        s[r[k] as int].next == if k + 1 < r.len() { r[k + 1] } else { r[0] },
        s[r[k] as int].prev == if k > 0 { r[k - 1] } else { r[r.len() - 1] },
        r.len() >= 1,
{
    reveal(links_ok);
}

/// Splicing slot `i` into `ring` right after position `p`, by pointing the
/// anchor's `next` and its old successor's `prev` at `i`, keeps the links
/// consistent.
pub(crate) proof fn lemma_links_insert<T>(s: Seq<Slot<T>>, s2: Seq<Slot<T>>, r: Seq<usize>, p: int, i: usize)
    requires
        links_ok(s, r),
        r.no_duplicates(),
        0 <= p < r.len(),
        !r.contains(i),
        i < s2.len(),
        s.len() <= s2.len(),
        s2[i as int].prev == r[p],
        s2[i as int].next == s[r[p] as int].next,
        s2[r[p] as int].next == i,
        s2[s[r[p] as int].next as int].prev == i,
        forall|j: int| 0 <= j < s.len() && j != r[p] && j != i ==> s2[j].next == s[j].next,
        forall|j: int| 0 <= j < s.len() && j != s[r[p] as int].next && j != i
            ==> s2[j].prev == s[j].prev,
    ensures
        links_ok(s2, r.insert(p + 1, i)),
{
    reveal(links_ok);
    let n = r.len() as int;
    let big = r.insert(p + 1, i);
    let b = s[r[p] as int].next;
    assert(b == if p + 1 < n { r[p + 1] } else { r[0] });
    assert forall|k: int| 0 <= k < n + 1 implies #[trigger] big[k] < s2.len() by {
        if k <= p { assert(big[k] == r[k]); } else if k > p + 1 { assert(big[k] == r[k - 1]); }
    }
    assert forall|k: int| 0 <= k < n implies (#[trigger] s2[big[k] as int]).next == big[k + 1] by {
        if k < p {
            assert(r[k] != r[p]);
            assert(s[r[k] as int].next == r[k + 1]);
        } else if k > p + 1 {
            assert(r[k - 1] != r[p]);
            assert(s[r[k - 1] as int].next == r[k]);
        }
    }
    assert forall|k: int| 0 < k < n + 1 implies (#[trigger] s2[big[k] as int]).prev == big[k - 1] by {
        if k <= p {
            assert(r[k] != b);
            assert(s[r[k] as int].prev == r[k - 1]);
        } else if k > p + 2 {
            assert(r[k - 1] != b);
            assert(s[r[k - 1] as int].prev == r[k - 2]);
        } else if k == p + 2 {
            assert(big[k] == r[p + 1]);
        }
    }
    if p + 1 < n {
        assert(r[n - 1] != r[p]);
        assert(s2[big[n] as int].next == big[0]);
        assert(r[0] != b);
    }
}

/// Taking the slot at position `q` out of `ring`, by pointing its
/// predecessor's `next` and its successor's `prev` at each other, keeps the
/// links consistent.
pub(crate) proof fn lemma_links_remove<T>(s: Seq<Slot<T>>, s2: Seq<Slot<T>>, r: Seq<usize>, q: int)
    requires
        links_ok(s, r),
        r.no_duplicates(),
        1 <= q < r.len(),
        s2.len() == s.len(),
        s2[s[r[q] as int].prev as int].next == s[r[q] as int].next,
        s2[s[r[q] as int].next as int].prev == s[r[q] as int].prev,
        forall|j: int| 0 <= j < s.len() && j != s[r[q] as int].prev ==> s2[j].next == s[j].next,
        forall|j: int| 0 <= j < s.len() && j != s[r[q] as int].next ==> s2[j].prev == s[j].prev,
    ensures
        links_ok(s2, r.remove(q)),
{
    reveal(links_ok);
    let n = r.len() as int;
    let small = r.remove(q);
    let a = s[r[q] as int].prev;
    let b = s[r[q] as int].next;
    assert(a == r[q - 1]);
    assert(b == if q + 1 < n { r[q + 1] } else { r[0] });
    assert forall|k: int| 0 <= k < n - 1 implies #[trigger] small[k] < s2.len() by {
        if k >= q { assert(small[k] == r[k + 1]); }
    }
    assert forall|k: int| 0 <= k < n - 2 implies (#[trigger] s2[small[k] as int]).next == small[k + 1] by {
        if k < q - 1 {
            assert(r[k] != a);
        } else if k >= q {
            assert(r[k + 1] != a);
            assert(s[r[k + 1] as int].next == r[k + 2]);
        }
    }
    assert forall|k: int| 0 < k < n - 1 implies (#[trigger] s2[small[k] as int]).prev == small[k - 1] by {
        if k < q {
            assert(r[k] != b);
        } else if k > q {
            assert(r[k + 1] != b);
            assert(s[r[k + 1] as int].prev == r[k]);
        }
    }
    if q + 1 < n {
        assert(r[n - 1] != a);
        assert(r[0] != b);
    }
}

} // verus!
