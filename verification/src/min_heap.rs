//! A binary min-heap of routes, ordered by distance and, among equal
//! distances, by station, so that what leaves the heap first never depends
//! on the order of insertion.
use vstd::prelude::*;
use vstd::multiset::Multiset;
use vstd::seq_lib::{
    to_multiset_build, to_multiset_contains, to_multiset_len, to_multiset_remove,
    to_multiset_update,
};
use crate::route::Route;

verus! {

/// The order of the heap: by distance first, by station second.
pub open spec fn key_le(a: Route, b: Route) -> bool {
    a.distance < b.distance || (a.distance == b.distance && a.to <= b.to)
}

/// Every entry but the root is no smaller than its parent.
pub open spec fn heap_ordered(s: Seq<Route>) -> bool {
    forall|k: int| 1 <= k < s.len() ==> key_le(s[(k - 1) / 2], #[trigger] s[k])
}

/// The heap order holds everywhere except between `hole` and its parent, and
/// the children of `hole` are no smaller than the parent of `hole`.
spec fn ordered_but_above(s: Seq<Route>, hole: int) -> bool {
    &&& forall|k: int| 1 <= k < s.len() && k != hole ==> key_le(s[(k - 1) / 2], #[trigger] s[k])
    &&& forall|k: int|
        1 <= k < s.len() && (k - 1) / 2 == hole && hole >= 1 ==> key_le(
            s[(hole - 1) / 2],
            #[trigger] s[k],
        )
}

/// The heap order holds everywhere except between `hole` and its children,
/// and the children of `hole` are no smaller than the parent of `hole`.
spec fn ordered_but_below(s: Seq<Route>, hole: int) -> bool {
    &&& forall|k: int|
        1 <= k < s.len() && (k - 1) / 2 != hole ==> key_le(s[(k - 1) / 2], #[trigger] s[k])
    &&& forall|k: int|
        1 <= k < s.len() && (k - 1) / 2 == hole && hole >= 1 ==> key_le(
            s[(hole - 1) / 2],
            #[trigger] s[k],
        )
}

/// The root of an ordered heap is its smallest entry.
proof fn lemma_root_is_least(s: Seq<Route>, k: int)
    requires
        heap_ordered(s),
        0 <= k < s.len(),
    ensures
        key_le(s[0], s[k]),
    decreases k,
{
    if k > 0 {
        lemma_root_is_least(s, (k - 1) / 2);
    }
}

/// Exchanging two entries changes nothing about what the heap holds.
proof fn lemma_swap_keeps_contents(s: Seq<Route>, i: int, j: int)
    requires
        0 <= i < s.len(),
        0 <= j < s.len(),
    ensures
        exchanged(s, i, j).to_multiset() == s.to_multiset(),
{
    let s1 = s.update(i, s[j]);
    to_multiset_update(s, i, s[j]);
    to_multiset_update(s1, j, s[i]);
    to_multiset_contains(s, s[i]);
    to_multiset_contains(s, s[j]);
    assert(s.contains(s[i]));
    assert(s.contains(s[j]));
    assert(s1.update(j, s[i]).to_multiset() =~= s.to_multiset());
}

/// Two entries exchanged.
spec fn exchanged(s: Seq<Route>, i: int, j: int) -> Seq<Route> {
    s.update(i, s[j]).update(j, s[i])
}

/// Moving a too-small entry one level up moves the flaw in the order one level up.
proof fn lemma_step_up(s: Seq<Route>, hole: int)
    requires
        1 <= hole < s.len(),
        ordered_but_above(s, hole),
        !key_le(s[(hole - 1) / 2], s[hole]),
    ensures
        ordered_but_above(exchanged(s, hole, (hole - 1) / 2), (hole - 1) / 2),
{
    let parent = (hole - 1) / 2;
    let t = exchanged(s, hole, parent);
    assert forall|k: int| 1 <= k < t.len() && k != parent implies key_le(
        t[(k - 1) / 2],
        #[trigger] t[k],
    ) by {
        if k == hole {
        } else if (k - 1) / 2 == parent {
            assert(key_le(s[parent], s[k]));
        } else if (k - 1) / 2 == hole {
            assert(key_le(s[parent], s[k]));
        } else {
            assert(key_le(s[(k - 1) / 2], s[k]));
        }
    }
    assert forall|k: int|
        1 <= k < t.len() && (k - 1) / 2 == parent && parent >= 1 implies key_le(
        t[(parent - 1) / 2],
        #[trigger] t[k],
    ) by {
        assert(key_le(s[(parent - 1) / 2], s[parent]));
        if k != hole {
            assert(key_le(s[parent], s[k]));
        }
    }
}

/// Moving a too-large entry one level down, below its smaller child, moves
/// the flaw in the order one level down.
proof fn lemma_step_down(s: Seq<Route>, hole: int, child: int)
    requires
        0 <= hole < child < s.len(),
        (child - 1) / 2 == hole,
        ordered_but_below(s, hole),
        !key_le(s[hole], s[child]),
        forall|k: int| 1 <= k < s.len() && (k - 1) / 2 == hole ==> key_le(s[child], #[trigger] s[k]),
    ensures
        ordered_but_below(exchanged(s, hole, child), child),
{
    let t = exchanged(s, hole, child);
    assert forall|k: int| 1 <= k < t.len() && (k - 1) / 2 != child implies key_le(
        t[(k - 1) / 2],
        #[trigger] t[k],
    ) by {
        if k == child {
        } else if (k - 1) / 2 == hole {
            assert(key_le(s[child], s[k]));
        } else if k == hole {
            assert(key_le(s[(hole - 1) / 2], s[child]));
        } else {
            assert(key_le(s[(k - 1) / 2], s[k]));
        }
    }
    assert forall|k: int|
        1 <= k < t.len() && (k - 1) / 2 == child && child >= 1 implies key_le(
        t[(child - 1) / 2],
        #[trigger] t[k],
    ) by {
        assert(key_le(s[child], s[k]));
    }
}

/// An entry that is no smaller than its parent is no flaw.
proof fn lemma_rest_up(s: Seq<Route>, hole: int)
    requires
        0 <= hole < s.len(),
        ordered_but_above(s, hole),
        hole >= 1 ==> key_le(s[(hole - 1) / 2], s[hole]),
    ensures
        heap_ordered(s),
{
    assert forall|k: int| 1 <= k < s.len() implies key_le(s[(k - 1) / 2], #[trigger] s[k]) by {
        if k != hole {
            assert(key_le(s[(k - 1) / 2], s[k]));
        }
    }
}

/// An entry that is no larger than its children is no flaw.
proof fn lemma_rest_down(s: Seq<Route>, hole: int)
    requires
        0 <= hole < s.len(),
        ordered_but_below(s, hole),
        forall|k: int| 1 <= k < s.len() && (k - 1) / 2 == hole ==> key_le(s[hole], #[trigger] s[k]),
    ensures
        heap_ordered(s),
{
    assert forall|k: int| 1 <= k < s.len() implies key_le(s[(k - 1) / 2], #[trigger] s[k]) by {
        if (k - 1) / 2 != hole {
            assert(key_le(s[(k - 1) / 2], s[k]));
        }
    }
}

/// A heap stays ordered below its root when the root is replaced.
proof fn lemma_new_root(s: Seq<Route>, r: Route)
    requires
        s.len() > 0,
        heap_ordered(s),
    ensures
        ordered_but_below(s.update(0, r), 0),
{
    let t = s.update(0, r);
    assert forall|k: int| 1 <= k < t.len() && (k - 1) / 2 != 0 implies key_le(
        t[(k - 1) / 2],
        #[trigger] t[k],
    ) by {
        assert(key_le(s[(k - 1) / 2], s[k]));
    }
}

/// The smaller of the two children, or the only one, is no larger than any
/// child; and an entry that is no larger than it is no larger than any child.
proof fn lemma_children(s: Seq<Route>, hole: int, child: int)
    requires
        0 <= hole,
        child < s.len(),
        child == 2 * hole + 1 || child == 2 * hole + 2,
        2 * hole + 2 < s.len() ==> key_le(s[child], s[2 * hole + 1]) && key_le(
            s[child],
            s[2 * hole + 2],
        ),
    ensures
        (child - 1) / 2 == hole,
        forall|k: int| 1 <= k < s.len() && (k - 1) / 2 == hole ==> key_le(s[child], #[trigger] s[k]),
        key_le(s[hole], s[child]) ==> forall|k: int|
            1 <= k < s.len() && (k - 1) / 2 == hole ==> key_le(s[hole], #[trigger] s[k]),
{
    assert forall|k: int| 1 <= k < s.len() && (k - 1) / 2 == hole implies key_le(
        s[child],
        #[trigger] s[k],
    ) by {
        assert(k == 2 * hole + 1 || k == 2 * hole + 2);
    }
}

/// The heap. `heap[0]` is the least entry, and the entries at `2i + 1` and
/// `2i + 2` are no smaller than the entry at `i`.
pub struct MinHeap {
    pub heap: Vec<Route>,
}

impl MinHeap {
    /// What the heap holds, with multiplicity.
    pub open spec fn contents(&self) -> Multiset<Route> {
        self.heap@.to_multiset()
    }

    /// The entries are in heap order.
    pub open spec fn wf(&self) -> bool {
        heap_ordered(self.heap@)
    }

    /// An empty heap.
    pub fn new() -> (h: MinHeap)
        ensures
            h.wf(),
            h.contents() == Multiset::<Route>::empty(),
            h.heap@.len() == 0,
    {
        let h = MinHeap { heap: Vec::new() };
        assert(h.heap@.to_multiset() =~= Multiset::<Route>::empty()) by {
            to_multiset_len(h.heap@);
        }
        h
    }

    /// Whether `a` comes before `b`, or is equal to it, in the heap's order.
    pub fn less_or_equal(a: &Route, b: &Route) -> (r: bool)
        ensures
            r == key_le(*a, *b),
    {
        a.distance < b.distance || (a.distance == b.distance && a.to <= b.to)
    }

    /// Puts `route` into the heap.
    pub fn add(&mut self, route: Route)
        requires
            old(self).wf(),
        ensures
            final(self).wf(),
            final(self).contents() == old(self).contents().insert(route),
            final(self).heap@.len() == old(self).heap@.len() + 1,
    {
        proof {
            to_multiset_build(self.heap@, route);
        }
        self.heap.push(route);
        let mut i: usize = self.heap.len() - 1;
        let ghost target = old(self).contents().insert(route);
        while i > 0
            invariant
                i < self.heap@.len(),
                self.heap@.len() == old(self).heap@.len() + 1,
                self.heap@.to_multiset() == target,
                ordered_but_above(self.heap@, i as int),
            ensures
                i < self.heap@.len(),
                self.heap@.len() == old(self).heap@.len() + 1,
                self.heap@.to_multiset() == target,
                ordered_but_above(self.heap@, i as int),
                i >= 1 ==> key_le(self.heap@[(i - 1) / 2], self.heap@[i as int]),
            decreases i,
        {
            let parent: usize = (i - 1) / 2;
            let child_entry = self.heap[i];
            let parent_entry = self.heap[parent];
            if Self::less_or_equal(&parent_entry, &child_entry) {
                break;
            }
            let ghost moved = exchanged(self.heap@, i as int, parent as int);
            proof {
                lemma_swap_keeps_contents(self.heap@, i as int, parent as int);
                lemma_step_up(self.heap@, i as int);
            }
            self.heap.set(i, parent_entry);
            self.heap.set(parent, child_entry);
            assert(self.heap@ =~= moved);
            i = parent;
        }
        proof {
            lemma_rest_up(self.heap@, i as int);
        }
    }

    /// Takes the smallest entry out of the heap. Among entries of the same
    /// distance the one with the smallest station leaves first.
    pub fn remove(&mut self) -> (least: Option<Route>)
        requires
            old(self).wf(),
        ensures
            final(self).wf(),
            match least {
                None => old(self).heap@.len() == 0 && final(self).heap@ == old(self).heap@,
                Some(r) => {
                    &&& old(self).contents().count(r) > 0
                    &&& forall|x: Route| old(self).contents().count(x) > 0 ==> key_le(r, x)
                    &&& final(self).contents() == old(self).contents().remove(r)
                    &&& final(self).heap@.len() + 1 == old(self).heap@.len()
                },
            },
    {
        if self.heap.len() == 0 {
            return None;
        }
        let least = self.heap[0];
        let ghost before = self.heap@;
        proof {
            to_multiset_contains(before, least);
            assert(before.contains(least));
            assert forall|x: Route| before.to_multiset().count(x) > 0 implies key_le(least, x) by {
                to_multiset_contains(before, x);
                let k = choose|k: int| 0 <= k < before.len() && before[k] == x;
                lemma_root_is_least(before, k);
            }
        }
        let last = self.heap.pop().unwrap();
        proof {
            to_multiset_remove(before, before.len() - 1);
            assert(before.remove(before.len() - 1) =~= self.heap@);
        }
        if self.heap.len() == 0 {
            assert(before.to_multiset().remove(last) == self.heap@.to_multiset());
            return Some(least);
        }
        let ghost target = before.to_multiset().remove(least);
        proof {
            to_multiset_update(self.heap@, 0, last);
            to_multiset_contains(before, last);
            assert(before.contains(last));
            assert(self.heap@.update(0, last).to_multiset() =~= target);
            lemma_new_root(self.heap@, last);
        }
        self.heap.set(0, last);
        let n: usize = self.heap.len();
        let mut i: usize = 0;
        while n >= 2 && i <= (n - 2) / 2
            invariant
                n == self.heap@.len(),
                n + 1 == before.len(),
                i < n,
                self.heap@.to_multiset() == target,
                ordered_but_below(self.heap@, i as int),
            ensures
                n == self.heap@.len(),
                i < n,
                self.heap@.to_multiset() == target,
                ordered_but_below(self.heap@, i as int),
                forall|k: int|
                    1 <= k < n && (k - 1) / 2 == i ==> key_le(
                        self.heap@[i as int],
                        #[trigger] self.heap@[k],
                    ),
            decreases n - i,
        {
            let left: usize = 2 * i + 1;
            let mut child: usize = left;
            if left + 1 < n {
                let right_entry = self.heap[left + 1];
                let left_entry = self.heap[left];
                if !Self::less_or_equal(&left_entry, &right_entry) {
                    child = left + 1;
                }
            }
            let here = self.heap[i];
            let child_entry = self.heap[child];
            proof {
                lemma_children(self.heap@, i as int, child as int);
            }
            if Self::less_or_equal(&here, &child_entry) {
                break;
            }
            let ghost moved = exchanged(self.heap@, i as int, child as int);
            proof {
                lemma_swap_keeps_contents(self.heap@, i as int, child as int);
                lemma_step_down(self.heap@, i as int, child as int);
            }
            self.heap.set(i, child_entry);
            self.heap.set(child, here);
            assert(self.heap@ =~= moved);
            i = child;
        }
        proof {
            lemma_rest_down(self.heap@, i as int);
        }
        Some(least)
    }

    /// How many entries the heap holds.
    pub fn len(&self) -> (n: usize)
        ensures
            n == self.heap@.len(),
    {
        self.heap.len()
    }
}

} // verus!
