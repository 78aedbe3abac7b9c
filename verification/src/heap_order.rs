//! The mathematics of an array-backed binary min-heap: the order property,
//! the two repair walks (upwards and downwards) as functions on sequences, and
//! the facts that tie them together.

use vstd::prelude::*;

verus! {

/// An element that a queue orders by a number: the smaller number leaves first.
///
/// `same` is the equality by which a queue looks an element up; it need not
/// look at every field.
pub trait Prioritized: Sized {
    /// The number by which the element is ordered.
    spec fn priority_spec(&self) -> u64;

    /// Returns the number by which the element is ordered.
    fn priority(&self) -> (p: u64)
        ensures
            p == self.priority_spec(),
    ;

    /// Whether a lookup for `other` finds this element.
    spec fn same_spec(&self, other: &Self) -> bool;

    /// Tells whether a lookup for `other` finds this element.
    fn same(&self, other: &Self) -> (b: bool)
        ensures
            b == self.same_spec(other),
    ;
}

impl Prioritized for u64 {
    open spec fn priority_spec(&self) -> u64 {
        *self
    }

    fn priority(&self) -> (p: u64) {
        *self
    }

    open spec fn same_spec(&self, other: &Self) -> bool {
        *self == *other
    }

    fn same(&self, other: &Self) -> (b: bool) {
        *self == *other
    }
}

/// Where the parent of position `k` lies, for `k > 0`.
pub open spec fn parent(k: int) -> int {
    (k - 1) / 2
}

/// The sequence with the elements at `i` and `j` exchanged.
pub open spec fn swapped<T>(s: Seq<T>, i: int, j: int) -> Seq<T> {
    s.update(i, s[j]).update(j, s[i])
}

/// The element at position `k` is at most each of its children.
pub open spec fn ordered_at<T: Prioritized>(s: Seq<T>, k: int) -> bool {
    &&& 2 * k + 1 < s.len() ==> s[k].priority_spec() <= s[2 * k + 1].priority_spec()
    &&& 2 * k + 2 < s.len() ==> s[k].priority_spec() <= s[2 * k + 2].priority_spec()
}

/// The min-heap order: every element is at most each of its children.
pub open spec fn is_min_heap<T: Prioritized>(s: Seq<T>) -> bool {
    forall|k: int| 0 <= k < s.len() ==> #[trigger] ordered_at(s, k)
}

/// Among position `k` and its children, the one that holds the smallest
/// element: `k` itself unless a child is strictly smaller, and then the left
/// child unless the right one is strictly smaller still.
pub open spec fn smallest_of_family<T: Prioritized>(s: Seq<T>, k: int) -> int {
    let l = 2 * k + 1;
    let r = 2 * k + 2;
    let m = if l < s.len() && s[l].priority_spec() < s[k].priority_spec() {
        l
    } else {
        k
    };
    if r < s.len() && s[r].priority_spec() < s[m].priority_spec() {
        r
    } else {
        m
    }
}

/// Where the element at `k` comes to rest when it is sifted down.
pub open spec fn sink_index<T: Prioritized>(s: Seq<T>, k: int) -> int
    decreases s.len() - k,
{
    let m = smallest_of_family(s, k);
    if 0 <= k < s.len() && m != k {
        sink_index(swapped(s, k, m), m)
    } else {
        k
    }
}

/// The sequence after the element at `k` has been sifted down: as long as a
/// child is strictly smaller, the element changes place with the smallest of
/// its family.
pub open spec fn sunk<T: Prioritized>(s: Seq<T>, k: int) -> Seq<T>
    decreases s.len() - k,
{
    let m = smallest_of_family(s, k);
    if 0 <= k < s.len() && m != k {
        sunk(swapped(s, k, m), m)
    } else {
        s
    }
}

/// Where the element at `k` comes to rest when it is sifted up.
pub open spec fn swim_index<T: Prioritized>(s: Seq<T>, k: int) -> int
    decreases k,
{
    if 0 < k < s.len() && s[k].priority_spec() < s[parent(k)].priority_spec() {
        swim_index(swapped(s, k, parent(k)), parent(k))
    } else {
        k
    }
}

/// The sequence after the element at `k` has been sifted up: as long as it is
/// strictly smaller than its parent, the two change places.
pub open spec fn swum<T: Prioritized>(s: Seq<T>, k: int) -> Seq<T>
    decreases k,
{
    if 0 < k < s.len() && s[k].priority_spec() < s[parent(k)].priority_spec() {
        swum(swapped(s, k, parent(k)), parent(k))
    } else {
        s
    }
}

/// The heap after `el` has been appended and sifted up.
pub open spec fn inserted<T: Prioritized>(s: Seq<T>, el: T) -> Seq<T> {
    swum(s.push(el), s.len() as int)
}

/// The heap after the element at `i` has been taken out: the last element
/// takes its place and is sifted down, or, where that moves nothing, up.
/// A position outside the heap leaves it as it is.
pub open spec fn removed_at<T: Prioritized>(s: Seq<T>, i: int) -> Seq<T> {
    if 0 <= i < s.len() {
        let t = swapped(s, i, s.len() - 1).drop_last();
        if i < t.len() {
            if sink_index(t, i) == i {
                swum(t, i)
            } else {
                sunk(t, i)
            }
        } else {
            t
        }
    } else {
        s
    }
}

/// Whether a lookup for `el` finds something in the sequence.
pub open spec fn holds<T: Prioritized>(s: Seq<T>, el: T) -> bool {
    exists|i: int| 0 <= i < s.len() && #[trigger] s[i].same_spec(&el)
}

/// Position `i` is the first at which a lookup for `el` succeeds.
pub open spec fn is_first_match<T: Prioritized>(s: Seq<T>, el: T, i: int) -> bool {
    &&& 0 <= i < s.len()
    &&& s[i].same_spec(&el)
    &&& forall|j: int| 0 <= j < i ==> !(#[trigger] s[j].same_spec(&el))
}

/// The order holds everywhere but, possibly, between `k` and its children;
/// the parent of `k` is at most those children.
pub open spec fn heap_except_down<T: Prioritized>(s: Seq<T>, k: int) -> bool {
    &&& forall|p: int| 0 <= p < s.len() && p != k ==> #[trigger] ordered_at(s, p)
    &&& 0 < k < s.len() ==> {
        &&& 2 * k + 1 < s.len() ==> s[parent(k)].priority_spec() <= s[2 * k + 1].priority_spec()
        &&& 2 * k + 2 < s.len() ==> s[parent(k)].priority_spec() <= s[2 * k + 2].priority_spec()
    }
}

/// What `ordered_at` says of `p`, but for the child at `k`.
pub open spec fn ordered_at_but<T: Prioritized>(s: Seq<T>, p: int, k: int) -> bool {
    &&& 2 * p + 1 < s.len() && 2 * p + 1 != k ==> s[p].priority_spec() <= s[2 * p + 1].priority_spec()
    &&& 2 * p + 2 < s.len() && 2 * p + 2 != k ==> s[p].priority_spec() <= s[2 * p + 2].priority_spec()
}

/// The order holds everywhere but, possibly, between `k` and its parent;
/// the parent of `k` is at most the children of `k`.
pub open spec fn heap_except_up<T: Prioritized>(s: Seq<T>, k: int) -> bool {
    &&& forall|p: int| 0 <= p < s.len() ==> #[trigger] ordered_at_but(s, p, k)
    &&& 0 < k < s.len() ==> {
        &&& 2 * k + 1 < s.len() ==> s[parent(k)].priority_spec() <= s[2 * k + 1].priority_spec()
        &&& 2 * k + 2 < s.len() ==> s[parent(k)].priority_spec() <= s[2 * k + 2].priority_spec()
    }
}

/// Exchanging two elements keeps what the sequence holds.
pub proof fn lemma_swapped_multiset<T>(s: Seq<T>, i: int, j: int)
    requires
        0 <= i < s.len(),
        0 <= j < s.len(),
    ensures
        swapped(s, i, j).len() == s.len(),
        swapped(s, i, j).to_multiset() == s.to_multiset(),
{
    broadcast use vstd::multiset::group_multiset_axioms;
    let t = s.update(i, s[j]);
    vstd::seq_lib::to_multiset_update(s, i, s[j]);
    vstd::seq_lib::to_multiset_update(t, j, s[i]);
    vstd::seq_lib::to_multiset_contains(s, s[i]);
    vstd::seq_lib::to_multiset_contains(s, s[j]);
    assert(s.contains(s[i]));
    assert(s.contains(s[j]));
    assert(swapped(s, i, j).to_multiset() =~= s.to_multiset());
}

/// Sifting down moves elements about and loses none; the element that was at
/// `k` ends at the position that `sink_index` names, not above `k`.
pub proof fn lemma_sunk_shape<T: Prioritized>(s: Seq<T>, k: int)
    requires
        0 <= k,
    ensures
        sunk(s, k).len() == s.len(),
        sunk(s, k).to_multiset() == s.to_multiset(),
        k <= sink_index(s, k),
        k < s.len() ==> sink_index(s, k) < s.len() && sunk(s, k)[sink_index(s, k)] == s[k],
        sink_index(s, k) == k ==> sunk(s, k) == s,
        forall|j: int| 0 <= j < k && j < s.len() ==> #[trigger] sunk(s, k)[j] == s[j],
    decreases s.len() - k,
{
    let m = smallest_of_family(s, k);
    if k < s.len() && m != k {
        let t = swapped(s, k, m);
        lemma_swapped_multiset(s, k, m);
        lemma_sunk_shape(t, m);
        assert forall|j: int| 0 <= j < k implies #[trigger] sunk(s, k)[j] == s[j] by {
            assert(sunk(t, m)[j] == t[j]);
        }
    }
}

/// Sifting up moves elements about and loses none; the element that was at
/// `k` ends at the position that `swim_index` names, not below `k`.
pub proof fn lemma_swum_shape<T: Prioritized>(s: Seq<T>, k: int)
    requires
        0 <= k,
    ensures
        swum(s, k).len() == s.len(),
        swum(s, k).to_multiset() == s.to_multiset(),
        0 <= swim_index(s, k) <= k,
        k < s.len() ==> swum(s, k)[swim_index(s, k)] == s[k],
        swim_index(s, k) == k ==> swum(s, k) == s,
    decreases k,
{
    if 0 < k < s.len() && s[k].priority_spec() < s[parent(k)].priority_spec() {
        let t = swapped(s, k, parent(k));
        lemma_swapped_multiset(s, k, parent(k));
        lemma_swum_shape(t, parent(k));
    }
}

/// Sifting down mends a heap whose order fails only below `k`.
pub proof fn lemma_sunk_restores<T: Prioritized>(s: Seq<T>, k: int)
    requires
        0 <= k,
        heap_except_down(s, k),
    ensures
        is_min_heap(sunk(s, k)),
    decreases s.len() - k,
{
    let m = smallest_of_family(s, k);
    if k < s.len() && m != k {
        let t = swapped(s, k, m);
        assert forall|p: int| 0 <= p < t.len() && p != m implies #[trigger] ordered_at(t, p) by {
            if p == k {
            } else {
                assert(ordered_at(s, p));
            }
        }
        assert(ordered_at(s, m));
        assert(heap_except_down(t, m));
        lemma_sunk_restores(t, m);
    } else {
        assert forall|p: int| 0 <= p < s.len() implies #[trigger] ordered_at(s, p) by {
        }
    }
}

/// Sifting up mends a heap whose order fails only above `k`.
pub proof fn lemma_swum_restores<T: Prioritized>(s: Seq<T>, k: int)
    requires
        0 <= k,
        heap_except_up(s, k),
    ensures
        is_min_heap(swum(s, k)),
    decreases k,
{
    if 0 < k < s.len() && s[k].priority_spec() < s[parent(k)].priority_spec() {
        let q = parent(k);
        let t = swapped(s, k, q);
        assert forall|p: int| 0 <= p < t.len() implies #[trigger] ordered_at_but(t, p, q) by {
            assert(ordered_at_but(s, p, k));
            assert(ordered_at_but(s, q, k));
            if q > 0 {
                assert(ordered_at_but(s, parent(q), k));
            }
        }
        assert(ordered_at_but(s, q, k));
        if q > 0 {
            assert(ordered_at_but(s, parent(q), k));
        }
        assert(heap_except_up(t, q));
        lemma_swum_restores(t, q);
    } else {
        assert forall|p: int| 0 <= p < s.len() implies #[trigger] ordered_at(s, p) by {
            assert(ordered_at_but(s, p, k));
        }
    }
}

/// A lookup finds something in a sequence exactly if it finds something in
/// what the sequence holds.
pub proof fn lemma_holds_in_multiset<T: Prioritized>(s: Seq<T>, el: T)
    ensures
        holds(s, el) <==> (exists|x: T| #[trigger] s.to_multiset().contains(x) && x.same_spec(&el)),
{
    if holds(s, el) {
        let i = choose|i: int| 0 <= i < s.len() && #[trigger] s[i].same_spec(&el);
        vstd::seq_lib::to_multiset_contains(s, s[i]);
        assert(s.contains(s[i]));
        assert(s.to_multiset().contains(s[i]) && s[i].same_spec(&el));
    }
    if exists|x: T| #[trigger] s.to_multiset().contains(x) && x.same_spec(&el) {
        let x = choose|x: T| #[trigger] s.to_multiset().contains(x) && x.same_spec(&el);
        vstd::seq_lib::to_multiset_contains(s, x);
        let i = choose|i: int| 0 <= i < s.len() && s[i] == x;
        assert(s[i].same_spec(&el));
    }
}

/// In a heap no element of what it holds is smaller than the first.
pub proof fn lemma_root_is_least_of_all<T: Prioritized>(s: Seq<T>)
    requires
        is_min_heap(s),
        s.len() > 0,
    ensures
        forall|y: T| #[trigger]
            s.to_multiset().contains(y) ==> s[0].priority_spec() <= y.priority_spec(),
{
    assert forall|y: T| #[trigger] s.to_multiset().contains(y) implies s[0].priority_spec()
        <= y.priority_spec() by {
        vstd::seq_lib::to_multiset_contains(s, y);
        let j = choose|j: int| 0 <= j < s.len() && s[j] == y;
        lemma_root_is_least(s, j);
    }
}

/// In a heap no element is smaller than the first.
pub proof fn lemma_root_is_least<T: Prioritized>(s: Seq<T>, j: int)
    requires
        is_min_heap(s),
        0 <= j < s.len(),
    ensures
        s[0].priority_spec() <= s[j].priority_spec(),
    decreases j,
{
    if j > 0 {
        assert(ordered_at(s, parent(j)));
        lemma_root_is_least(s, parent(j));
    }
}

/// Inserting keeps the heap order and adds exactly the new element.
pub proof fn lemma_inserted<T: Prioritized>(s: Seq<T>, el: T)
    ensures
        inserted(s, el).len() == s.len() + 1,
        inserted(s, el).to_multiset() == s.to_multiset().insert(el),
        is_min_heap(s) ==> is_min_heap(inserted(s, el)),
{
    let t = s.push(el);
    let k = s.len() as int;
    lemma_swum_shape(t, k);
    vstd::seq_lib::to_multiset_build(s, el);
    if is_min_heap(s) {
        assert forall|p: int| 0 <= p < t.len() implies #[trigger] ordered_at_but(t, p, k) by {
            if p < s.len() {
                assert(ordered_at(s, p));
            }
        }
        lemma_swum_restores(t, k);
    }
}

/// Taking the element at `i` out keeps the heap order and removes exactly
/// that element.
pub proof fn lemma_removed_at<T: Prioritized>(s: Seq<T>, i: int)
    requires
        0 <= i < s.len(),
    ensures
        removed_at(s, i).len() == s.len() - 1,
        removed_at(s, i).to_multiset() == s.to_multiset().remove(s[i]),
        is_min_heap(s) ==> is_min_heap(removed_at(s, i)),
{
    let last = s.len() - 1;
    let w = swapped(s, i, last);
    let t = w.drop_last();
    lemma_swapped_multiset(s, i, last);
    assert(t =~= w.remove(last));
    vstd::seq_lib::to_multiset_remove(w, last);
    if i < t.len() {
        lemma_sunk_shape(t, i);
        lemma_swum_shape(t, i);
        if is_min_heap(s) {
            if i == 0 || t[parent(i)].priority_spec() <= t[i].priority_spec() {
                assert forall|p: int| 0 <= p < t.len() && p != i implies #[trigger] ordered_at(
                    t,
                    p,
                ) by {
                    assert(ordered_at(s, p));
                }
                if i > 0 {
                    assert(ordered_at(s, parent(i)));
                    assert(ordered_at(s, i));
                }
                assert(heap_except_down(t, i));
                lemma_sunk_restores(t, i);
            } else {
                assert(ordered_at(s, parent(i)));
                assert(ordered_at(s, i));
                assert(smallest_of_family(t, i) == i);
                assert forall|p: int| 0 <= p < t.len() implies #[trigger] ordered_at_but(
                    t,
                    p,
                    i,
                ) by {
                    assert(ordered_at(s, p));
                }
                assert(heap_except_up(t, i));
                lemma_swum_restores(t, i);
            }
        }
    } else {
        if is_min_heap(s) {
            assert forall|p: int| 0 <= p < t.len() implies #[trigger] ordered_at(t, p) by {
                assert(ordered_at(s, p));
            }
        }
    }
}

/// Of two elements that leave a heap one after the other from its first
/// position, the second is not smaller than the first.
pub proof fn lemma_successive_minima<T: Prioritized>(s: Seq<T>)
    requires
        is_min_heap(s),
        s.len() >= 2,
    ensures
        s[0].priority_spec() <= removed_at(s, 0)[0].priority_spec(),
{
    broadcast use vstd::multiset::group_multiset_axioms;
    let t = removed_at(s, 0);
    lemma_removed_at(s, 0);
    vstd::seq_lib::to_multiset_contains(t, t[0]);
    assert(t.contains(t[0]));
    assert(s.to_multiset().count(t[0]) > 0);
    vstd::seq_lib::to_multiset_contains(s, t[0]);
    let j = choose|j: int| 0 <= j < s.len() && s[j] == t[0];
    lemma_root_is_least(s, j);
}

/// What a heap hands out, first to last, when its first element is taken
/// out again and again until none is left.
pub open spec fn polled_out<T: Prioritized>(s: Seq<T>) -> Seq<T>
    decreases s.len(),
{
    if s.len() == 0 {
        Seq::empty()
    } else {
        proof {
            lemma_removed_at(s, 0);
        }
        seq![s[0]] + polled_out(removed_at(s, 0))
    }
}

/// A heap hands out exactly what it holds, in ascending order of priority.
pub proof fn lemma_polled_out_ascending<T: Prioritized>(s: Seq<T>)
    requires
        is_min_heap(s),
    ensures
        polled_out(s).len() == s.len(),
        polled_out(s).to_multiset() == s.to_multiset(),
        forall|i: int, j: int|
            0 <= i <= j < s.len() ==> polled_out(s)[i].priority_spec() <= polled_out(
                s,
            )[j].priority_spec(),
    decreases s.len(),
{
    broadcast use vstd::multiset::group_multiset_axioms;
    if s.len() == 0 {
        assert(polled_out(s).to_multiset() =~= s.to_multiset()) by {
            vstd::seq_lib::to_multiset_len(s);
            vstd::seq_lib::to_multiset_len(polled_out(s));
        }
    } else {
        let rest = removed_at(s, 0);
        let out = polled_out(s);
        lemma_removed_at(s, 0);
        lemma_polled_out_ascending(rest);
        assert(out =~= polled_out(rest).insert(0, s[0]));
        vstd::seq_lib::to_multiset_insert(polled_out(rest), 0, s[0]);
        vstd::seq_lib::to_multiset_contains(s, s[0]);
        assert(s.contains(s[0]));
        assert(out.to_multiset() =~= s.to_multiset());
        lemma_root_is_least_of_all(s);
        assert forall|i: int, j: int| 0 <= i <= j < s.len() implies out[i].priority_spec()
            <= out[j].priority_spec() by {
            if i == 0 && j > 0 {
                let y = polled_out(rest)[j - 1];
                vstd::seq_lib::to_multiset_contains(polled_out(rest), y);
                assert(polled_out(rest).contains(y));
                assert(rest.to_multiset().contains(y));
                assert(s.to_multiset().contains(y));
            } else if i > 0 {
                assert(out[i] == polled_out(rest)[i - 1]);
                assert(out[j] == polled_out(rest)[j - 1]);
            }
        }
    }
}

} // verus!
