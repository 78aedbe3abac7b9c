//! The priority queue interface and its array-backed binary min-heap.

use crate::heap_order::{
    heap_except_down, heap_except_up, holds, inserted, is_first_match, is_min_heap,
    lemma_holds_in_multiset, lemma_inserted, lemma_removed_at, lemma_root_is_least_of_all,
    lemma_sunk_restores, lemma_sunk_shape, lemma_swapped_multiset, lemma_swum_restores,
    lemma_swum_shape, removed_at, sink_index, sunk, swapped, swim_index, swum, Prioritized,
};
use vstd::multiset::Multiset;
use vstd::prelude::*;

verus! {

/// A queue that hands its elements out smallest priority first.
///
/// The contracts speak of what the queue holds as a multiset. What `ordered`
/// means is the implementation's business; every operation keeps it, and the
/// promise that `poll` returns a smallest element rests on it.
pub trait PriorityQueue<T: Prioritized>: Sized {
    /// What the queue holds, without regard to position.
    spec fn contents(&self) -> Multiset<T>;

    /// The queue's internal order is intact.
    spec fn ordered(&self) -> bool;

    /// An empty queue with room for `sz` elements; the queue grows beyond
    /// that as needed.
    fn with_capacity(sz: usize) -> (q: Self)
        ensures
            q.contents() == Multiset::<T>::empty(),
            q.ordered(),
    ;

    /// Tells whether a lookup for `el` finds an element of the queue.
    fn contains(&self, el: &T) -> (found: bool)
        ensures
            found == (exists|x: T| #[trigger] self.contents().contains(x) && x.same_spec(el)),
    ;

    /// Takes one element that a lookup for `el` finds out of the queue; where
    /// there is none the queue stays as it is.
    fn remove(&mut self, el: &T)
        ensures
            old(self).ordered() ==> final(self).ordered(),
            (exists|x: T| #[trigger] old(self).contents().contains(x) && x.same_spec(el))
                ==> (exists|x: T|
                #![trigger old(self).contents().contains(x)]
                old(self).contents().contains(x) && x.same_spec(el) && final(self).contents()
                    == old(self).contents().remove(x)),
            !(exists|x: T| #[trigger] old(self).contents().contains(x) && x.same_spec(el))
                ==> final(self).contents() == old(self).contents(),
    ;

    /// Adds `el` to the queue.
    fn insert(&mut self, el: T)
        ensures
            final(self).contents() == old(self).contents().insert(el),
            old(self).ordered() ==> final(self).ordered(),
    ;

    /// Takes an element of smallest priority out of the queue and returns it,
    /// or returns `None` where the queue is empty.
    fn poll(&mut self) -> (least: Option<T>)
        ensures
            least is None <==> old(self).contents().len() == 0,
            least is None ==> final(self).contents() == old(self).contents(),
            least matches Some(x) ==> old(self).contents().contains(x) && final(self).contents()
                == old(self).contents().remove(x),
            old(self).ordered() ==> final(self).ordered(),
            old(self).ordered() ==> (least matches Some(x) ==> forall|y: T|
                old(self).contents().contains(y) ==> x.priority_spec() <= y.priority_spec()),
    ;
}

/// A binary min-heap laid out in a vector: the children of position `k` are
/// at `2k + 1` and `2k + 2`.
pub struct BinaryHeap<T: Prioritized> {
    pub heap: Vec<T>,
}

impl<T: Prioritized> View for BinaryHeap<T> {
    type V = Seq<T>;

    open spec fn view(&self) -> Seq<T> {
        self.heap@
    }
}

/// `<[T]>::swap` on a vector: the elements at `i` and `j` change places and
/// every other element stays where it is. The call panics on a position
/// outside the vector, which the precondition rules out.
#[verifier::external_body]
fn swap_elements<T>(v: &mut Vec<T>, i: usize, j: usize)
    requires
        i < old(v)@.len(),
        j < old(v)@.len(),
    ensures
        final(v)@ == old(v)@.update(i as int, old(v)@[j as int]).update(j as int, old(v)@[i as int]),
{
    v.swap(i, j);
}

impl<T: Prioritized> PriorityQueue<T> for BinaryHeap<T> {
    open spec fn contents(&self) -> Multiset<T> {
        self@.to_multiset()
    }

    open spec fn ordered(&self) -> bool {
        is_min_heap(self@)
    }

    fn with_capacity(sz: usize) -> (q: Self)
        ensures
            q@ == Seq::<T>::empty(),
    {
        let q = BinaryHeap { heap: Vec::with_capacity(sz) };
        proof {
            broadcast use vstd::multiset::group_multiset_axioms;
            vstd::seq_lib::to_multiset_len(q@);
            assert(q@.to_multiset() =~= Multiset::<T>::empty());
        }
        q
    }

    fn contains(&self, el: &T) -> (found: bool)
        ensures
            found == holds(self@, *el),
    {
        proof {
            lemma_holds_in_multiset(self@, *el);
        }
        let at = self.position(el);
        assert(self.contents() == self@.to_multiset());
        at.is_some()
    }

    fn remove(&mut self, el: &T)
        ensures
            !holds(old(self)@, *el) ==> final(self)@ == old(self)@,
            forall|i: int| #[trigger]
                is_first_match(old(self)@, *el, i) ==> final(self)@ == removed_at(old(self)@, i),
    {
        proof {
            lemma_holds_in_multiset(self@, *el);
        }
        assert(self.contents() == self@.to_multiset());
        if let Some(idx) = self.position(el) {
            let ghost x = self@[idx as int];
            proof {
                vstd::seq_lib::to_multiset_contains(self@, x);
                assert(self@.contains(x));
            }
            self.remove_at(idx);
            assert(old(self).contents().contains(x) && x.same_spec(el) && self.contents() == old(
                self,
            ).contents().remove(x));
        }
    }

    fn insert(&mut self, el: T)
        ensures
            final(self)@ == inserted(old(self)@, el),
            final(self)@.len() == old(self)@.len() + 1,
    {
        proof {
            lemma_inserted(self@, el);
        }
        self.heap.push(el);
        let end: usize = self.heap.len() - 1;
        self.swim(end);
    }

    fn poll(&mut self) -> (least: Option<T>)
        ensures
            final(self)@ == removed_at(old(self)@, 0),
            least == if old(self)@.len() > 0 {
                Some(old(self)@[0])
            } else {
                None
            },
            final(self)@.len() == if old(self)@.len() > 0 {
                old(self)@.len() - 1
            } else {
                0
            },
    {
        proof {
            vstd::seq_lib::to_multiset_len(self@);
            if self@.len() > 0 {
                vstd::seq_lib::to_multiset_contains(self@, self@[0]);
                assert(self@.contains(self@[0]));
                if is_min_heap(self@) {
                    lemma_root_is_least_of_all(self@);
                }
            }
        }
        self.remove_at(0)
    }
}

impl<T: Prioritized> BinaryHeap<T> {
    /// The first position at which a lookup for `el` succeeds.
    fn position(&self, el: &T) -> (at: Option<usize>)
        ensures
            at is None <==> !holds(self@, *el),
            at matches Some(i) ==> is_first_match(self@, *el, i as int),
    {
        let mut i: usize = 0;
        while i < self.heap.len()
            invariant
                i <= self@.len(),
                forall|j: int| 0 <= j < i ==> !(#[trigger] self@[j].same_spec(el)),
            decreases self@.len() - i,
        {
            if self.heap[i].same(el) {
                return Some(i);
            }
            i += 1;
        }
        None
    }

    /// Exchanges the elements at `i` and `j`.
    pub fn swap(&mut self, i: usize, j: usize)
        requires
            i < old(self)@.len(),
            j < old(self)@.len(),
        ensures
            final(self)@ == swapped(old(self)@, i as int, j as int),
            final(self)@.to_multiset() == old(self)@.to_multiset(),
    {
        proof {
            lemma_swapped_multiset(self@, i as int, j as int);
        }
        swap_elements(&mut self.heap, i, j);
    }

    /// Sifts the element at `k` up: while it is strictly smaller than its
    /// parent the two change places. Returns where the element ends. A
    /// position outside the heap moves nothing.
    pub fn swim(&mut self, k: usize) -> (settled: usize)
        ensures
            final(self)@ == swum(old(self)@, k as int),
            settled == swim_index(old(self)@, k as int),
            settled <= k,
            settled == k ==> final(self)@ == old(self)@,
            final(self)@.len() == old(self)@.len(),
            final(self)@.to_multiset() == old(self)@.to_multiset(),
            heap_except_up(old(self)@, k as int) ==> is_min_heap(final(self)@),
    {
        proof {
            lemma_swum_shape(self@, k as int);
            if heap_except_up(self@, k as int) {
                lemma_swum_restores(self@, k as int);
            }
        }
        let mut at: usize = k;
        if at >= self.heap.len() {
            return at;
        }
        while at > 0
            invariant
                at < self@.len(),
                swum(self@, at as int) == swum(old(self)@, k as int),
                swim_index(self@, at as int) == swim_index(old(self)@, k as int),
            ensures
                swum(self@, at as int) == swum(old(self)@, k as int),
                swim_index(self@, at as int) == swim_index(old(self)@, k as int),
                swum(self@, at as int) == self@,
                swim_index(self@, at as int) == at,
            decreases at,
        {
            let up: usize = (at - 1) / 2;
            if self.heap[at].priority() < self.heap[up].priority() {
                swap_elements(&mut self.heap, at, up);
                at = up;
            } else {
                break;
            }
        }
        at
    }

    /// Sifts the element at `k` down: while a child is strictly smaller, the
    /// element changes places with the smallest of the two children, the left
    /// one where both are equal. Returns where the element ends. A position
    /// outside the heap moves nothing.
    pub fn sink(&mut self, k: usize) -> (settled: usize)
        ensures
            final(self)@ == sunk(old(self)@, k as int),
            settled == sink_index(old(self)@, k as int),
            settled >= k,
            settled == k ==> final(self)@ == old(self)@,
            final(self)@.len() == old(self)@.len(),
            final(self)@.to_multiset() == old(self)@.to_multiset(),
            heap_except_down(old(self)@, k as int) ==> is_min_heap(final(self)@),
    {
        proof {
            lemma_sunk_shape(self@, k as int);
            if heap_except_down(self@, k as int) {
                lemma_sunk_restores(self@, k as int);
            }
        }
        let heap_size = self.heap.len();
        let mut at: usize = k;
        loop
            invariant
                heap_size == self@.len(),
                sunk(self@, at as int) == sunk(old(self)@, k as int),
                sink_index(self@, at as int) == sink_index(old(self)@, k as int),
            ensures
                sunk(self@, at as int) == sunk(old(self)@, k as int),
                sink_index(self@, at as int) == sink_index(old(self)@, k as int),
                sunk(self@, at as int) == self@,
                sink_index(self@, at as int) == at,
            decreases heap_size - at,
        {
            if at >= heap_size / 2 {
                break;
            }
            let ghost before = self@;
            let left: usize = 2 * at + 1;
            let right: usize = left + 1;
            let mut smallest: usize = at;
            if self.heap[left].priority() < self.heap[smallest].priority() {
                smallest = left;
            }
            if right < heap_size && self.heap[right].priority() < self.heap[smallest].priority() {
                smallest = right;
            }
            if smallest != at {
                swap_elements(&mut self.heap, smallest, at);
                assert(self@ =~= swapped(before, at as int, smallest as int));
                at = smallest;
            } else {
                break;
            }
        }
        at
    }

    /// Takes the element at `i` out of the heap and returns it: the last
    /// element takes its place and is sifted down or, where that moves
    /// nothing, up. Returns `None`, and leaves the heap alone, where `i` is
    /// no position of the heap.
    pub fn remove_at(&mut self, i: usize) -> (removed: Option<T>)
        ensures
            final(self)@ == removed_at(old(self)@, i as int),
            removed == if i < old(self)@.len() {
                Some(old(self)@[i as int])
            } else {
                None
            },
            i < old(self)@.len() ==> final(self)@.len() == old(self)@.len() - 1,
            i < old(self)@.len() ==> final(self)@.to_multiset() == old(self)@.to_multiset().remove(
                old(self)@[i as int],
            ),
            is_min_heap(old(self)@) ==> is_min_heap(final(self)@),
    {
        let len = self.heap.len();
        if i >= len {
            return None;
        }
        proof {
            lemma_removed_at(self@, i as int);
        }
        let end: usize = len - 1;
        swap_elements(&mut self.heap, i, end);
        let removed = self.heap.pop();
        assert(self@ == swapped(old(self)@, i as int, end as int).drop_last());
        if i < end {
            let settled = self.sink(i);
            if settled == i {
                self.swim(i);
            }
        }
        removed
    }
}

} // verus!
