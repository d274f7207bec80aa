//! The frontier of the search: a binary min-heap of states keyed by their
//! tentative distance.

use crate::heat::route::SearchState;
use vstd::prelude::*;

verus! {

/// A state together with the distance at which it was put on the frontier.
#[derive(Debug, Clone, Copy, PartialEq, Eq, Structural)]
pub struct FrontierEntry {
    pub state: SearchState,
    pub distance: i64,
}

/// A binary min-heap of frontier entries. The entry at place `i` is no
/// farther than the entries at places `2i + 1` and `2i + 2`.
#[derive(Debug)]
pub struct Frontier {
    pub entries: Vec<FrontierEntry>,
}

/// The place above place `i` in the heap.
pub open spec fn above(i: int) -> int {
    (i - 1) / 2
}

/// The entry at place `i` is no nearer than the one above it.
pub open spec fn in_order(a: Seq<FrontierEntry>, i: int) -> bool {
    a[above(i)].distance <= a[i].distance
}

/// The heap order on `a`, but below place `hole`: the entries just below
/// `hole` are held to the entry above `hole` instead.
pub open spec fn heap_below(a: Seq<FrontierEntry>, hole: int) -> bool {
    &&& forall|i: int| 1 <= i < a.len() && above(i) != hole ==> #[trigger] in_order(a, i)
    &&& forall|i: int|
        1 <= i < a.len() && above(i) == hole && hole > 0 ==> a[above(hole)].distance <= (
        #[trigger] a[i]).distance
}

/// The heap order on `a`, but above place `hole`: the entries just below
/// `hole` are held to the entry above `hole` as well.
pub open spec fn heap_above(a: Seq<FrontierEntry>, hole: int) -> bool {
    &&& forall|i: int| 1 <= i < a.len() && i != hole ==> #[trigger] in_order(a, i)
    &&& forall|i: int|
        1 <= i < a.len() && above(i) == hole && hole > 0 ==> a[above(hole)].distance <= (
        #[trigger] a[i]).distance
}

/// The heap order on `a`.
pub open spec fn is_heap(a: Seq<FrontierEntry>) -> bool {
    forall|i: int| 1 <= i < a.len() ==> #[trigger] in_order(a, i)
}

/// `a` and `b` hold the same entries, as sets.
pub open spec fn same_entries(a: Seq<FrontierEntry>, b: Seq<FrontierEntry>) -> bool {
    forall|x: FrontierEntry| a.contains(x) <==> b.contains(x)
}

/// `a` with the entries at places `i` and `j` exchanged.
pub open spec fn exchanged(a: Seq<FrontierEntry>, i: int, j: int) -> Seq<FrontierEntry> {
    a.update(i, a[j]).update(j, a[i])
}

/// Exchanging two entries changes nothing in what a sequence holds.
pub proof fn lemma_exchange_keeps_entries(a: Seq<FrontierEntry>, i: int, j: int)
    requires
        0 <= i < a.len(),
        0 <= j < a.len(),
    ensures
        same_entries(a, exchanged(a, i, j)),
{
    let b = exchanged(a, i, j);
    assert forall|x: FrontierEntry| a.contains(x) implies b.contains(x) by {
        let t = choose|t: int| 0 <= t < a.len() && a[t] == x;
        if t == i {
            assert(b[j] == x);
        } else if t == j {
            assert(b[i] == x);
        } else {
            assert(b[t] == x);
        }
    }
    assert forall|x: FrontierEntry| b.contains(x) implies a.contains(x) by {
        let t = choose|t: int| 0 <= t < b.len() && b[t] == x;
        if t == i {
            assert(a[j] == x);
        } else if t == j {
            assert(a[i] == x);
        } else {
            assert(a[t] == x);
        }
    }
}

/// In a heap no entry is nearer than the first.
pub proof fn lemma_first_is_nearest(a: Seq<FrontierEntry>, i: int)
    requires
        is_heap(a),
        0 <= i < a.len(),
    ensures
        a[0].distance <= a[i].distance,
    decreases i,
{
    if i > 0 {
        lemma_first_is_nearest(a, above(i));
        assert(in_order(a, i));
    }
}

/// Moving a hole one place up: where the entry in the hole is nearer than
/// the one above it, exchanging the two leaves the order broken at most
/// above the new hole.
pub proof fn lemma_sift_up(a: Seq<FrontierEntry>, hole: int)
    requires
        0 < hole < a.len(),
        heap_above(a, hole),
        a[hole].distance < a[above(hole)].distance,
    ensures
        heap_above(exchanged(a, hole, above(hole)), above(hole)),
{
    let up = above(hole);
    let b = exchanged(a, hole, up);
    assert forall|i: int| 1 <= i < b.len() && i != up implies #[trigger] in_order(b, i) by {
        if i == hole {
        } else if above(i) == hole {
        } else {
            assert(in_order(a, i));
        }
    }
    assert forall|i: int| 1 <= i < b.len() && above(i) == up && up > 0 implies b[above(
        up,
    )].distance <= (#[trigger] b[i]).distance by {
        assert(in_order(a, up));
        if i != hole {
            assert(in_order(a, i));
        }
    }
}

/// Moving a hole one place down: where the nearer of the entries just
/// below the hole is nearer than the entry in the hole, exchanging the two
/// leaves the order broken at most below the new hole.
pub proof fn lemma_sift_down(a: Seq<FrontierEntry>, hole: int, least: int)
    requires
        0 <= hole < a.len(),
        heap_below(a, hole),
        least == 2 * hole + 1 || least == 2 * hole + 2,
        least < a.len(),
        a[least].distance < a[hole].distance,
        forall|i: int| 1 <= i < a.len() && above(i) == hole ==> a[least].distance <= (
        #[trigger] a[i]).distance,
    ensures
        heap_below(exchanged(a, hole, least), least),
{
    let b = exchanged(a, hole, least);
    assert forall|i: int| 1 <= i < b.len() && above(i) != least implies #[trigger] in_order(
        b,
        i,
    ) by {
        if above(i) == hole {
            assert(a[least].distance <= a[i].distance);
        } else if i == hole {
            assert(a[above(hole)].distance <= a[least].distance);
        } else {
            assert(in_order(a, i));
        }
    }
    assert forall|i: int| 1 <= i < b.len() && above(i) == least && least > 0 implies b[above(
        least,
    )].distance <= (#[trigger] b[i]).distance by {
        assert(in_order(a, i));
    }
}

/// Holding the same entries is transitive.
pub proof fn lemma_same_entries(a: Seq<FrontierEntry>, b: Seq<FrontierEntry>, c: Seq<FrontierEntry>)
    requires
        same_entries(a, b),
        same_entries(b, c),
    ensures
        same_entries(a, c),
{
    assert forall|x: FrontierEntry| a.contains(x) <==> c.contains(x) by {
        assert(a.contains(x) <==> b.contains(x));
    }
}

impl Frontier {
    /// Whether the frontier is in heap order.
    pub open spec fn wf(&self) -> bool {
        is_heap(self.entries@)
    }

    /// Whether `e` is on the frontier.
    pub open spec fn holds(&self, e: FrontierEntry) -> bool {
        self.entries@.contains(e)
    }

    /// The empty frontier.
    pub fn new() -> (f: Frontier)
        ensures
            f.wf(),
            f.entries@.len() == 0,
            forall|e: FrontierEntry| !f.holds(e),
    {
        Frontier { entries: Vec::new() }
    }

    /// The number of entries on the frontier.
    pub fn len(&self) -> (n: usize)
        ensures
            n == self.entries@.len(),
    {
        self.entries.len()
    }

    /// Exchanges the entries at places `i` and `j`.
    fn exchange(&mut self, i: usize, j: usize)
        requires
            i < old(self).entries@.len(),
            j < old(self).entries@.len(),
        ensures
            final(self).entries@ == exchanged(old(self).entries@, i as int, j as int),
            same_entries(old(self).entries@, final(self).entries@),
    {
        proof {
            lemma_exchange_keeps_entries(self.entries@, i as int, j as int);
        }
        let a = self.entries[i];
        let b = self.entries[j];
        self.entries.set(i, b);
        self.entries.set(j, a);
    }

    /// Puts `e` on the frontier.
    pub fn push(&mut self, e: FrontierEntry)
        requires
            old(self).wf(),
        ensures
            final(self).wf(),
            final(self).entries@.len() == old(self).entries@.len() + 1,
            forall|x: FrontierEntry| final(self).holds(x) <==> (old(self).holds(x) || x == e),
    {
        let ghost before = self.entries@;
        self.entries.push(e);
        let ghost pushed = self.entries@;
        proof {
            assert(pushed =~= before.push(e));
            assert forall|x: FrontierEntry| pushed.contains(x) <==> (before.contains(x) || x
                == e) by {
                if before.contains(x) {
                    let t = choose|t: int| 0 <= t < before.len() && before[t] == x;
                    assert(pushed[t] == x);
                }
                if x == e {
                    assert(pushed[before.len() as int] == x);
                }
                if pushed.contains(x) {
                    let t = choose|t: int| 0 <= t < pushed.len() && pushed[t] == x;
                    if t < before.len() {
                        assert(before[t] == x);
                    }
                }
            }
        }
        let mut k: usize = self.entries.len() - 1;
        proof {
            assert forall|i: int| 1 <= i < pushed.len() && i != k implies #[trigger] in_order(
                pushed,
                i,
            ) by {
                assert(in_order(before, i));
            }
        }
        while k > 0 && self.entries[k].distance < self.entries[(k - 1) / 2].distance
            invariant
                k < self.entries@.len(),
                self.entries@.len() == pushed.len(),
                same_entries(pushed, self.entries@),
                heap_above(self.entries@, k as int),
            decreases k,
        {
            let parent = (k - 1) / 2;
            let ghost a = self.entries@;
            proof {
                lemma_sift_up(a, k as int);
            }
            self.exchange(k, parent);
            proof {
                lemma_same_entries(pushed, a, self.entries@);
            }
            k = parent;
        }
        proof {
            let b = self.entries@;
            assert forall|i: int| 1 <= i < b.len() implies #[trigger] in_order(b, i) by {
                if i != k {
                }
            }
        }
    }

    /// Takes an entry of least distance off the frontier, if there is any.
    pub fn pop(&mut self) -> (nearest: Option<FrontierEntry>)
        requires
            old(self).wf(),
        ensures
            final(self).wf(),
            match nearest {
                None => old(self).entries@.len() == 0 && final(self).entries@.len() == 0,
                Some(e) => {
                    &&& old(self).holds(e)
                    &&& final(self).entries@.len() + 1 == old(self).entries@.len()
                    &&& forall|x: FrontierEntry| #[trigger]
                        old(self).holds(x) ==> e.distance <= x.distance
                    &&& forall|x: FrontierEntry| #[trigger]
                        old(self).holds(x) ==> final(self).holds(x) || x == e
                    &&& forall|x: FrontierEntry| #[trigger]
                        final(self).holds(x) ==> old(self).holds(x)
                },
            },
    {
        let n = self.entries.len();
        if n == 0 {
            return None;
        }
        let ghost before = self.entries@;
        let first = self.entries[0];
        proof {
            assert(before[0] == first);
            assert forall|x: FrontierEntry| #[trigger] before.contains(x) implies first.distance
                <= x.distance by {
                let t = choose|t: int| 0 <= t < before.len() && before[t] == x;
                lemma_first_is_nearest(before, t);
            }
        }
        self.exchange(0, n - 1);
        let ghost swapped = self.entries@;
        let removed = self.entries.pop();
        let ghost start = self.entries@;
        proof {
            assert(start =~= swapped.drop_last());
            assert(swapped[n - 1] == first);
            assert forall|x: FrontierEntry| #[trigger] before.contains(x) implies start.contains(x)
                || x == first by {
                assert(swapped.contains(x));
                let t = choose|t: int| 0 <= t < swapped.len() && swapped[t] == x;
                if t < n - 1 {
                    assert(start[t] == x);
                }
            }
            assert forall|x: FrontierEntry| #[trigger] start.contains(x) implies before.contains(
                x,
            ) by {
                let t = choose|t: int| 0 <= t < start.len() && start[t] == x;
                assert(swapped[t] == x);
                assert(swapped.contains(x));
            }
            // Only the pairs below the first place may be out of order now.
            assert forall|i: int| 1 <= i < start.len() && above(i) != 0 implies #[trigger] in_order(
                start,
                i,
            ) by {
                assert(in_order(before, i));
            }
        }
        let m = self.entries.len();
        let mut k: usize = 0;
        loop
            invariant
                m == self.entries@.len(),
                m + 1 == n,
                k <= m,
                same_entries(start, self.entries@),
                heap_below(self.entries@, k as int),
            ensures
                m == self.entries@.len(),
                same_entries(start, self.entries@),
                is_heap(self.entries@),
            decreases m - k,
        {
            if k >= m / 2 {
                proof {
                    let b = self.entries@;
                    assert forall|i: int| 1 <= i < b.len() implies #[trigger] in_order(b, i) by {
                        assert(above(i) != k);
                    }
                }
                break;
            }
            let left = 2 * k + 1;
            let right = 2 * k + 2;
            let mut least = left;
            if right < m && self.entries[right].distance < self.entries[left].distance {
                least = right;
            }
            if self.entries[k].distance <= self.entries[least].distance {
                proof {
                    let b = self.entries@;
                    assert forall|i: int| 1 <= i < b.len() implies #[trigger] in_order(b, i) by {
                        if above(i) == k {
                            assert(i == left || i == right);
                        }
                    }
                }
                break;
            }
            let ghost a = self.entries@;
            proof {
                assert forall|i: int| 1 <= i < a.len() && above(i) == k implies a[least as int].distance
                    <= (#[trigger] a[i]).distance by {
                    assert(i == left || i == right);
                }
                lemma_sift_down(a, k as int, least as int);
            }
            self.exchange(k, least);
            proof {
                lemma_same_entries(start, a, self.entries@);
            }
            k = least;
        }
        Some(first)
    }
}

} // verus!
