//! Binary heaps: priority queues that hand out their least or their
//! greatest value first.

use crate::order::{at_most, is_total_order, le, lemma_total_order};
use vstd::multiset::Multiset;
use vstd::prelude::*;
use vstd::seq_lib::{to_multiset_build, to_multiset_contains, to_multiset_len, to_multiset_update};

verus! {

/// `a` may leave a heap before `b` does: it is at most `b` in a heap that
/// hands out its least value first, and at least `b` in one that hands out
/// its greatest.
pub open spec fn may_precede<T: Ord>(a: T, b: T, least_first: bool) -> bool {
    if least_first {
        le(a, b)
    } else {
        le(b, a)
    }
}

/// The values of `s` stand in heap order: each may precede the two that
/// stand at twice its position, plus one and plus two.
spec fn heap_ordered<T: Ord>(s: Seq<T>, least_first: bool) -> bool {
    forall|k: int| 0 < k < s.len() ==> may_precede(s[(k - 1) / 2], #[trigger] s[k], least_first)
}

/// Heap order holds in `s` but for the value at `hole`, which may have to
/// rise: it may be out of order with the value above it, while the values
/// below it are in order with the value above it.
spec fn ordered_but_rising<T: Ord>(s: Seq<T>, hole: int, least_first: bool) -> bool {
    &&& forall|k: int|
        0 < k < s.len() && k != hole ==> may_precede(s[(k - 1) / 2], #[trigger] s[k], least_first)
    &&& hole > 0 ==> forall|c: int|
        0 < c < s.len() && (c - 1) / 2 == hole ==> may_precede(
            s[(hole - 1) / 2],
            #[trigger] s[c],
            least_first,
        )
}

/// Heap order holds in `s` but for the value at `hole`, which may have to
/// sink: it may be out of order with the values below it, which are in order
/// with the value above it.
spec fn ordered_but_sinking<T: Ord>(s: Seq<T>, hole: int, least_first: bool) -> bool {
    &&& forall|k: int|
        0 < k < s.len() && (k - 1) / 2 != hole ==> may_precede(
            s[(k - 1) / 2],
            #[trigger] s[k],
            least_first,
        )
    &&& hole > 0 ==> forall|c: int|
        0 < c < s.len() && (c - 1) / 2 == hole ==> may_precede(
            s[(hole - 1) / 2],
            #[trigger] s[c],
            least_first,
        )
}

/// In heap order the first value may precede every other.
proof fn lemma_first_precedes_all<T: Ord>(s: Seq<T>, least_first: bool, k: int)
    requires
        is_total_order::<T>(),
        heap_ordered(s, least_first),
        0 <= k < s.len(),
    ensures
        may_precede(s[0], s[k], least_first),
    decreases k,
{
    lemma_total_order::<T>();
    if k > 0 {
        lemma_first_precedes_all(s, least_first, (k - 1) / 2);
        assert(may_precede(s[(k - 1) / 2], s[k], least_first));
    }
}

/// Exchanging two values of a sequence leaves it with the values it had.
proof fn lemma_exchange_keeps_values<T>(s: Seq<T>, i: int, j: int)
    requires
        0 <= i < j < s.len(),
    ensures
        s.update(i, s[j]).update(j, s[i]).to_multiset() == s.to_multiset(),
{
    broadcast use vstd::multiset::group_multiset_axioms;

    let once = s.update(i, s[j]);
    to_multiset_update(s, i, s[j]);
    to_multiset_update(once, j, s[i]);
    to_multiset_contains(s, s[i]);
    to_multiset_contains(s, s[j]);
    assert(s.contains(s[i]));
    assert(s.contains(s[j]));
    assert(once.update(j, s[i]).to_multiset() =~= s.to_multiset());
}

/// Whether `a` may leave a heap before `b`.
fn precedes<T: Ord>(a: &T, b: &T, least_first: bool) -> (r: bool)
    ensures
        is_total_order::<T>() ==> r == may_precede(*a, *b, least_first),
{
    if least_first {
        at_most(a, b)
    } else {
        at_most(b, a)
    }
}

/// Exchanges two values of `v`.
fn exchange<T>(v: &mut Vec<T>, i: usize, j: usize)
    requires
        i < j < old(v)@.len(),
    ensures
        final(v)@ == old(v)@.update(i as int, old(v)@[j as int]).update(
            j as int,
            old(v)@[i as int],
        ),
        final(v)@.to_multiset() == old(v)@.to_multiset(),
{
    proof {
        lemma_exchange_keeps_values(v@, i as int, j as int);
    }
    let (head, tail) = v.as_mut_slice().split_at_mut(j);
    core::mem::swap(&mut head[i], &mut tail[0]);
    proof {
        assert(v@ =~= old(v)@.update(i as int, old(v)@[j as int]).update(
            j as int,
            old(v)@[i as int],
        ));
    }
}

/// Lets the last value of `v` rise to its place in the heap.
fn sift_up<T: Ord>(v: &mut Vec<T>, least_first: bool)
    requires
        old(v)@.len() > 0,
        is_total_order::<T>() ==> heap_ordered(old(v)@.drop_last(), least_first),
    ensures
        final(v)@.to_multiset() == old(v)@.to_multiset(),
        is_total_order::<T>() ==> heap_ordered(final(v)@, least_first),
{
    let n = v.len();
    let mut at: usize = n - 1;
    proof {
        if is_total_order::<T>() {
            let s = v@;
            let rest = s.drop_last();
            assert forall|k: int| 0 < k < s.len() && k != at implies may_precede(
                s[(k - 1) / 2],
                #[trigger] s[k],
                least_first,
            ) by {
                assert(may_precede(rest[(k - 1) / 2], rest[k], least_first));
            }
        }
    }
    while at > 0 && !precedes(&v[(at - 1) / 2], &v[at], least_first)
        invariant
            n == v@.len(),
            at < n,
            v@.to_multiset() == old(v)@.to_multiset(),
            is_total_order::<T>() ==> ordered_but_rising(v@, at as int, least_first),
        decreases at,
    {
        let above = (at - 1) / 2;
        let ghost s = v@;
        exchange(v, above, at);
        proof {
            if is_total_order::<T>() {
                lemma_total_order::<T>();
                let t = v@;
                assert forall|k: int| 0 < k < t.len() && k != above implies may_precede(
                    t[(k - 1) / 2],
                    #[trigger] t[k],
                    least_first,
                ) by {
                    let p = (k - 1) / 2;
                    if k == at {
                    } else if p == at {
                        assert(may_precede(s[above as int], s[k], least_first));
                    } else if p == above {
                        assert(may_precede(s[above as int], s[k], least_first));
                    } else {
                        assert(may_precede(s[p], s[k], least_first));
                    }
                }
                if above > 0 {
                    let g = (above - 1) / 2;
                    assert(may_precede(s[g], s[above as int], least_first));
                    assert forall|c: int|
                        0 < c < t.len() && (c - 1) / 2 == above implies may_precede(
                        t[g],
                        #[trigger] t[c],
                        least_first,
                    ) by {
                        if c != at {
                            assert(may_precede(s[above as int], s[c], least_first));
                        }
                    }
                }
            }
        }
        at = above;
    }
}

/// Lets the first value of `v` sink to its place in the heap.
fn sift_down<T: Ord>(v: &mut Vec<T>, least_first: bool)
    requires
        is_total_order::<T>() ==> ordered_but_sinking(old(v)@, 0, least_first),
    ensures
        final(v)@.to_multiset() == old(v)@.to_multiset(),
        is_total_order::<T>() ==> heap_ordered(final(v)@, least_first),
{
    let n = v.len();
    let mut at: usize = 0;
    while at < n / 2
        invariant
            n == v@.len(),
            v@.to_multiset() == old(v)@.to_multiset(),
            is_total_order::<T>() ==> ordered_but_sinking(v@, at as int, least_first),
        decreases n - at,
    {
        let left = 2 * at + 1;
        let right = left + 1;
        let below = if right < n && !precedes(&v[left], &v[right], least_first) {
            right
        } else {
            left
        };
        let ghost s = v@;
        proof {
            if is_total_order::<T>() {
                lemma_total_order::<T>();
            }
        }
        if precedes(&v[at], &v[below], least_first) {
            proof {
                if is_total_order::<T>() {
                    assert forall|k: int| 0 < k < s.len() implies may_precede(
                        s[(k - 1) / 2],
                        #[trigger] s[k],
                        least_first,
                    ) by {
                        if (k - 1) / 2 == at {
                            assert(k == left || k == right);
                        }
                    }
                }
            }
            return ;
        }
        exchange(v, at, below);
        proof {
            if is_total_order::<T>() {
                let t = v@;
                assert forall|k: int| 0 < k < t.len() && (k - 1) / 2 != below implies may_precede(
                    t[(k - 1) / 2],
                    #[trigger] t[k],
                    least_first,
                ) by {
                    let p = (k - 1) / 2;
                    if p == at {
                        assert(k == left || k == right);
                    } else if k == at {
                        assert(may_precede(s[p], s[below as int], least_first));
                    } else {
                        assert(may_precede(s[p], s[k], least_first));
                    }
                }
                assert forall|c: int| 0 < c < t.len() && (c - 1) / 2 == below implies may_precede(
                    t[(below - 1) / 2],
                    #[trigger] t[c],
                    least_first,
                ) by {
                    assert(may_precede(s[below as int], s[c], least_first));
                }
            }
        }
        at = below;
    }
    proof {
        if is_total_order::<T>() {
            let s = v@;
            assert forall|k: int| 0 < k < s.len() implies may_precede(
                s[(k - 1) / 2],
                #[trigger] s[k],
                least_first,
            ) by {
                if (k - 1) / 2 == at {
                    assert(k >= 2 * at + 1);
                }
            }
        }
    }
}

/// Adds `item` to the heap `v`.
fn heap_push<T: Ord>(v: &mut Vec<T>, item: T, least_first: bool)
    requires
        is_total_order::<T>() ==> heap_ordered(old(v)@, least_first),
    ensures
        final(v)@.to_multiset() == old(v)@.to_multiset().insert(item),
        is_total_order::<T>() ==> heap_ordered(final(v)@, least_first),
{
    proof {
        to_multiset_build(v@, item);
    }
    v.push(item);
    proof {
        assert(v@.drop_last() =~= old(v)@);
    }
    sift_up(v, least_first);
}

/// Takes from the heap `v` the value that may precede all others.
fn heap_pop<T: Ord>(v: &mut Vec<T>, least_first: bool) -> (first: Option<T>)
    requires
        is_total_order::<T>() ==> heap_ordered(old(v)@, least_first),
    ensures
        is_total_order::<T>() ==> heap_ordered(final(v)@, least_first),
        match first {
            None => old(v)@.len() == 0 && final(v)@ == old(v)@,
            Some(x) => {
                &&& old(v)@.to_multiset().contains(x)
                &&& final(v)@.to_multiset() == old(v)@.to_multiset().remove(x)
                &&& is_total_order::<T>() ==> forall|y: T|
                    #[trigger] old(v)@.to_multiset().contains(y) ==> may_precede(x, y, least_first)
            },
        },
{
    let n = v.len();
    if n == 0 {
        return None;
    }
    let ghost s = v@;
    if n > 1 {
        exchange(v, 0, n - 1);
    }
    let ghost mixed = v@;
    let first = v.pop();
    proof {
        let x = s[0];
        assert(first == Some(x));
        assert(mixed =~= v@.push(x));
        to_multiset_build(v@, x);
        broadcast use vstd::multiset::group_multiset_axioms;

        assert(v@.to_multiset() =~= s.to_multiset().remove(x));
        to_multiset_contains(s, x);
        assert(s.contains(x));
        if is_total_order::<T>() {
            assert forall|y: T| #[trigger] s.to_multiset().contains(y) implies may_precede(
                x,
                y,
                least_first,
            ) by {
                to_multiset_contains(s, y);
                let k = choose|k: int| 0 <= k < s.len() && s[k] == y;
                lemma_first_precedes_all(s, least_first, k);
            }
            let t = v@;
            assert forall|k: int| 0 < k < t.len() && (k - 1) / 2 != 0 implies may_precede(
                t[(k - 1) / 2],
                #[trigger] t[k],
                least_first,
            ) by {
                assert(may_precede(s[(k - 1) / 2], s[k], least_first));
            }
        }
    }
    sift_down(v, least_first);
    first
}

/// The value of the heap `v` that may precede all others.
fn heap_peek<T: Ord>(v: &Vec<T>, least_first: bool) -> (first: Option<&T>)
    requires
        is_total_order::<T>() ==> heap_ordered(v@, least_first),
    ensures
        first is None <==> v@.len() == 0,
        first matches Some(x) ==> {
            &&& v@.to_multiset().contains(*x)
            &&& is_total_order::<T>() ==> forall|y: T|
                #[trigger] v@.to_multiset().contains(y) ==> may_precede(*x, y, least_first)
        },
{
    if v.len() == 0 {
        None
    } else {
        proof {
            let s = v@;
            to_multiset_contains(s, s[0]);
            assert(s.contains(s[0]));
            if is_total_order::<T>() {
                assert forall|y: T| #[trigger] s.to_multiset().contains(y) implies may_precede(
                    s[0],
                    y,
                    least_first,
                ) by {
                    to_multiset_contains(s, y);
                    let k = choose|k: int| 0 <= k < s.len() && s[k] == y;
                    lemma_first_precedes_all(s, least_first, k);
                }
            }
        }
        Some(&v[0])
    }
}

/// A priority queue that hands out its least value first.
pub struct MinHeap<T> where T: Ord {
    heap: Vec<T>,
}

impl<T> View for MinHeap<T> where T: Ord {
    type V = Multiset<T>;

    /// The values in the queue, each as often as it was pushed and not yet
    /// popped.
    closed spec fn view(&self) -> Multiset<T> {
        self.heap@.to_multiset()
    }
}

impl<T> MinHeap<T> where T: Ord {
    #[verifier::type_invariant]
    spec fn ordered(self) -> bool {
        is_total_order::<T>() ==> heap_ordered(self.heap@, true)
    }

    /// An empty queue.
    pub fn new() -> (queue: Self)
        ensures
            queue@ == Multiset::<T>::empty(),
    {
        let queue = Self { heap: Vec::new() };
        proof {
            assert(queue.heap@ =~= Seq::<T>::empty());
            broadcast use vstd::seq_lib::group_to_multiset_ensures;

            assert(queue.heap@.to_multiset() =~= Multiset::<T>::empty()) by {
                to_multiset_len(queue.heap@);
            }
        }
        queue
    }

    /// Takes the least value out of the queue; `None` where the queue is
    /// empty.
    pub fn pop(&mut self) -> (least: Option<T>)
        ensures
            match least {
                None => old(self)@.len() == 0 && final(self)@ == old(self)@,
                Some(x) => {
                    &&& old(self)@.contains(x)
                    &&& final(self)@ == old(self)@.remove(x)
                    &&& is_total_order::<T>() ==> forall|y: T|
                        #[trigger] old(self)@.contains(y) ==> le(x, y)
                },
            },
    {
        proof {
            use_type_invariant(&*self);
            to_multiset_len(self.heap@);
        }
        let mut heap = Vec::new();
        core::mem::swap(&mut self.heap, &mut heap);
        let least = heap_pop(&mut heap, true);
        core::mem::swap(&mut self.heap, &mut heap);
        least
    }

    /// The least value in the queue; `None` where the queue is empty.
    pub fn peek(&self) -> (least: Option<&T>)
        ensures
            least is None <==> self@.len() == 0,
            least matches Some(x) ==> {
                &&& self@.contains(*x)
                &&& is_total_order::<T>() ==> forall|y: T|
                    #[trigger] self@.contains(y) ==> le(*x, y)
            },
    {
        proof {
            use_type_invariant(self);
            to_multiset_len(self.heap@);
        }
        heap_peek(&self.heap, true)
    }

    /// Puts `item` into the queue.
    pub fn push(&mut self, item: T)
        ensures
            final(self)@ == old(self)@.insert(item),
    {
        proof {
            use_type_invariant(&*self);
        }
        let mut heap = Vec::new();
        core::mem::swap(&mut self.heap, &mut heap);
        heap_push(&mut heap, item, true);
        core::mem::swap(&mut self.heap, &mut heap);
    }

    /// The number of values in the queue.
    pub fn len(&self) -> (n: usize)
        ensures
            n == self@.len(),
    {
        proof {
            to_multiset_len(self.heap@);
        }
        self.heap.len()
    }
}

/// A priority queue that hands out its greatest value first.
pub struct MaxHeap<T> where T: Ord {
    heap: Vec<T>,
}

impl<T> View for MaxHeap<T> where T: Ord {
    type V = Multiset<T>;

    /// The values in the queue, each as often as it was pushed and not yet
    /// popped.
    closed spec fn view(&self) -> Multiset<T> {
        self.heap@.to_multiset()
    }
}

impl<T> MaxHeap<T> where T: Ord {
    #[verifier::type_invariant]
    spec fn ordered(self) -> bool {
        is_total_order::<T>() ==> heap_ordered(self.heap@, false)
    }

    /// An empty queue.
    pub fn new() -> (queue: Self)
        ensures
            queue@ == Multiset::<T>::empty(),
    {
        let queue = Self { heap: Vec::new() };
        proof {
            assert(queue.heap@ =~= Seq::<T>::empty());
            broadcast use vstd::seq_lib::group_to_multiset_ensures;

            assert(queue.heap@.to_multiset() =~= Multiset::<T>::empty()) by {
                to_multiset_len(queue.heap@);
            }
        }
        queue
    }

    /// Takes the greatest value out of the queue; `None` where the queue is
    /// empty.
    pub fn pop(&mut self) -> (greatest: Option<T>)
        ensures
            match greatest {
                None => old(self)@.len() == 0 && final(self)@ == old(self)@,
                Some(x) => {
                    &&& old(self)@.contains(x)
                    &&& final(self)@ == old(self)@.remove(x)
                    &&& is_total_order::<T>() ==> forall|y: T|
                        #[trigger] old(self)@.contains(y) ==> le(y, x)
                },
            },
    {
        proof {
            use_type_invariant(&*self);
            to_multiset_len(self.heap@);
        }
        let mut heap = Vec::new();
        core::mem::swap(&mut self.heap, &mut heap);
        let greatest = heap_pop(&mut heap, false);
        core::mem::swap(&mut self.heap, &mut heap);
        greatest
    }

    /// The greatest value in the queue; `None` where the queue is empty.
    pub fn peek(&mut self) -> (greatest: Option<&T>)
        ensures
            final(self)@ == old(self)@,
            greatest is None <==> old(self)@.len() == 0,
            greatest matches Some(x) ==> {
                &&& old(self)@.contains(*x)
                &&& is_total_order::<T>() ==> forall|y: T|
                    #[trigger] old(self)@.contains(y) ==> le(y, *x)
            },
    {
        proof {
            use_type_invariant(&*self);
            to_multiset_len(self.heap@);
        }
        heap_peek(&self.heap, false)
    }

    /// Puts `item` into the queue.
    pub fn push(&mut self, item: T)
        ensures
            final(self)@ == old(self)@.insert(item),
    {
        proof {
            use_type_invariant(&*self);
        }
        let mut heap = Vec::new();
        core::mem::swap(&mut self.heap, &mut heap);
        heap_push(&mut heap, item, false);
        core::mem::swap(&mut self.heap, &mut heap);
    }

    /// The number of values in the queue.
    pub fn len(&self) -> (n: usize)
        ensures
            n == self@.len(),
    {
        proof {
            to_multiset_len(self.heap@);
        }
        self.heap.len()
    }
}

} // verus!
