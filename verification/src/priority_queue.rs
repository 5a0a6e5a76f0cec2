//! A binary min-heap stored in a vector.
//!
//! The queue is viewed as the sequence of its elements in storage order. Every
//! operation states what it does to that sequence; the statements about heap order
//! hold for element types whose comparison operators form a total order in which
//! ties are allowed.

use vstd::prelude::*;
use vstd::std_specs::cmp::PartialEqIs;
use vstd::std_specs::cmp::PartialEqSpec;
use vstd::std_specs::cmp::PartialOrdIs;
use vstd::std_specs::cmp::PartialOrdSpec;
use vstd::multiset::Multiset;
use vstd::std_specs::iter::IteratorSpec;
use crate::error::Error;

verus! {

/// `a` comes strictly before `b` in the order of `T`.
pub open spec fn precedes<T: PartialOrd>(a: T, b: T) -> bool {
    a.is_lt(&b)
}

/// `a` comes strictly after `b` in the order of `T`.
pub open spec fn follows<T: PartialOrd>(a: T, b: T) -> bool {
    a.is_gt(&b)
}

/// The operators `<` and `>` of `T` compute what their specification says, and
/// that specification is a total order with ties: nothing precedes what precedes
/// it, "does not come after" is transitive, and `>` is `<` with the sides exchanged.
pub open spec fn is_total_order<T: PartialOrd>() -> bool {
    &&& T::obeys_partial_cmp_spec()
    &&& forall|a: T, b: T| #[trigger] precedes(a, b) ==> !precedes(b, a)
    &&& forall|a: T, b: T, c: T|
        !#[trigger] precedes(b, a) && !#[trigger] precedes(c, b) ==> !precedes(c, a)
    &&& forall|a: T, b: T| #[trigger] follows(a, b) <==> precedes(b, a)
}

/// The operator `==` of `T` computes what its specification says.
pub open spec fn has_eq<T: PartialEq>() -> bool {
    T::obeys_eq_spec()
}

/// `a == b` as the operator of `T` specifies it.
pub open spec fn same<T: PartialEq>(a: T, b: T) -> bool {
    a.is_eq(&b)
}

/// Index of the parent of the element at index `i`, for `i > 0`.
pub open spec fn parent_of(i: int) -> int {
    (i - 1) / 2
}

/// No element of `s` precedes its parent.
pub open spec fn is_heap<T: PartialOrd>(s: Seq<T>) -> bool {
    forall|i: int| 0 < i < s.len() ==> !precedes(#[trigger] s[i], s[parent_of(i)])
}

/// Heap order holds in `s` everywhere but between index `hole` and its parent,
/// and the children of `hole` do not precede the parent of `hole`.
pub open spec fn is_heap_but_above<T: PartialOrd>(s: Seq<T>, hole: int) -> bool {
    &&& forall|i: int| 0 < i < s.len() && i != hole ==> !precedes(#[trigger] s[i], s[parent_of(i)])
    &&& forall|i: int|
        0 < i < s.len() && parent_of(i) == hole && hole > 0 ==> !precedes(
            #[trigger] s[i],
            s[parent_of(hole)],
        )
}

/// Heap order holds in `s` everywhere but between index `hole` and its children,
/// and the children of `hole` do not precede the parent of `hole`.
pub open spec fn is_heap_but_below<T: PartialOrd>(s: Seq<T>, hole: int) -> bool {
    &&& forall|i: int|
        0 < i < s.len() && parent_of(i) != hole ==> !precedes(#[trigger] s[i], s[parent_of(i)])
    &&& forall|i: int|
        0 < i < s.len() && parent_of(i) == hole && hole > 0 ==> !precedes(
            #[trigger] s[i],
            s[parent_of(hole)],
        )
}

/// `s` with the elements at `i` and `j` exchanged.
pub open spec fn swapped<T>(s: Seq<T>, i: int, j: int) -> Seq<T> {
    s.update(i, s[j]).update(j, s[i])
}

/// The operators `<` and `>` of `T` compute what their specification says.
pub open spec fn compares<T: PartialOrd>() -> bool {
    T::obeys_partial_cmp_spec()
}

/// `s` after the element at `i` moved up: it changes places with its parent while
/// it precedes it.
pub open spec fn sifted_up<T: PartialOrd>(s: Seq<T>, i: int) -> Seq<T>
    decreases i,
{
    if 0 < i < s.len() && precedes(s[i], s[parent_of(i)]) {
        sifted_up(swapped(s, i, parent_of(i)), parent_of(i))
    } else {
        s
    }
}

/// Index of the child of `i` that the element at `i` is held against on its way
/// down: the left one where there is no right one or the left one precedes it,
/// else the right one.
pub open spec fn least_child<T: PartialOrd>(s: Seq<T>, i: int) -> int {
    if 2 * i + 2 >= s.len() || precedes(s[2 * i + 1], s[2 * i + 2]) {
        2 * i + 1
    } else {
        2 * i + 2
    }
}

/// `s` after the element at `i` moved down: it changes places with its least
/// child while it follows it.
pub open spec fn sifted_down<T: PartialOrd>(s: Seq<T>, i: int) -> Seq<T>
    decreases s.len() - i,
{
    if 0 <= i && 2 * i + 1 < s.len() && follows(s[i], s[least_child(s, i)]) {
        sifted_down(swapped(s, i, least_child(s, i)), least_child(s, i))
    } else {
        s
    }
}

/// `s` after `item` was pushed: appended, and moved up.
pub open spec fn pushed<T: PartialOrd>(s: Seq<T>, item: T) -> Seq<T> {
    sifted_up(s.push(item), s.len() as int)
}

/// `s` after every element of `items` was pushed, the first one first.
pub open spec fn pushed_all<T: PartialOrd>(s: Seq<T>, items: Seq<T>) -> Seq<T>
    decreases items.len(),
{
    if items.len() == 0 {
        s
    } else {
        pushed_all(pushed(s, items[0]), items.drop_first())
    }
}

/// `s` after its root was polled: the last element takes the place of the root
/// and moves down.
pub open spec fn polled<T: PartialOrd>(s: Seq<T>) -> Seq<T> {
    if s.len() <= 1 {
        Seq::empty()
    } else {
        sifted_down(swapped(s, 0, s.len() - 1).drop_last(), 0)
    }
}

/// Index `i` holds the first element of `s`, in storage order, that equals `probe`.
pub open spec fn is_first_match<T: PartialEq>(s: Seq<T>, probe: T, i: int) -> bool {
    &&& 0 <= i < s.len()
    &&& same(s[i], probe)
    &&& forall|j: int| 0 <= j < i ==> !same(#[trigger] s[j], probe)
}

/// Some element of `s` equals `probe`.
pub open spec fn has_match<T: PartialEq>(s: Seq<T>, probe: T) -> bool {
    exists|i: int| 0 <= i < s.len() && same(#[trigger] s[i], probe)
}

/// Exchanging two elements keeps the elements.
pub proof fn lemma_swapped_keeps_elements<T>(s: Seq<T>, i: int, j: int)
    requires
        0 <= i < s.len(),
        0 <= j < s.len(),
    ensures
        swapped(s, i, j).to_multiset() == s.to_multiset(),
        swapped(s, i, j).len() == s.len(),
{
    broadcast use vstd::seq_lib::to_multiset_update;

    let m = s.to_multiset();
    let s1 = s.update(i, s[j]);
    assert(s1.to_multiset() == m.insert(s[j]).remove(s[i]));
    assert(s1[j] == if i == j {
        s[j]
    } else {
        s[j]
    });
    assert(swapped(s, i, j).to_multiset() == s1.to_multiset().insert(s[i]).remove(s[j]));
    assert(m.insert(s[j]).remove(s[i]).insert(s[i]).remove(s[j]) =~= m) by {
        s.to_multiset_ensures();
        assert(s.contains(s[i]));
        assert(m.count(s[i]) > 0);
    }
}

/// No element of a heap precedes its root.
pub proof fn lemma_root_is_least<T: PartialOrd>(s: Seq<T>, j: int)
    requires
        is_total_order::<T>(),
        is_heap(s),
        0 <= j < s.len(),
    ensures
        !precedes(s[j], s[0]),
    decreases j,
{
    if j > 0 {
        lemma_root_is_least(s, parent_of(j));
        assert(!precedes(s[j], s[parent_of(j)]));
    }
}

/// Successive polls ascend: where `before` is a heap and `after` holds what is left
/// of it once its root is gone, the root of `after` does not precede the root of
/// `before`.
pub proof fn lemma_polls_ascend<T: PartialOrd>(before: Seq<T>, after: Seq<T>)
    requires
        is_total_order::<T>(),
        is_heap(before),
        before.len() > 0,
        after.len() > 0,
        before.to_multiset() == after.to_multiset().insert(before[0]),
    ensures
        !precedes(after[0], before[0]),
{
    before.to_multiset_ensures();
    after.to_multiset_ensures();
    assert(after.contains(after[0]));
    assert(before.to_multiset().count(after[0]) > 0);
    let j = choose|j: int| 0 <= j < before.len() && before[j] == after[0];
    lemma_root_is_least(before, j);
}

/// An item pushed and then polled comes back, where it precedes every element that
/// the queue held: if `after` is a heap that holds `item` and the elements of
/// `before`, its root is `item`.
pub proof fn lemma_push_then_poll<T: PartialOrd>(before: Seq<T>, after: Seq<T>, item: T)
    requires
        is_total_order::<T>(),
        is_heap(after),
        after.to_multiset() == before.to_multiset().insert(item),
        forall|i: int| 0 <= i < before.len() ==> precedes(item, #[trigger] before[i]),
    ensures
        after.len() == before.len() + 1,
        after[0] == item,
{
    broadcast use vstd::multiset::group_multiset_axioms;

    before.to_multiset_ensures();
    after.to_multiset_ensures();
    assert(after.to_multiset().count(item) > 0);
    let j = choose|j: int| 0 <= j < after.len() && after[j] == item;
    lemma_root_is_least(after, j);
    if after[0] != item {
        assert(after.contains(after[0]));
        assert(after.to_multiset().count(after[0]) > 0);
        vstd::multiset::lemma_insert_other_elements_unchanged(
            before.to_multiset(),
            item,
            after[0],
        );
        assert(before.to_multiset().count(after[0]) > 0);
        let k = choose|k: int| 0 <= k < before.len() && before[k] == after[0];
        assert(precedes(item, before[k]));
    }
}

/// The queue. Its view is the sequence of its elements in storage order.
pub struct PriorityQueue<T: PartialOrd> {
    arr: Vec<T>,
}

impl<T: PartialOrd> View for PriorityQueue<T> {
    type V = Seq<T>;

    closed spec fn view(&self) -> Seq<T> {
        self.arr@
    }
}

impl<T: PartialOrd> PriorityQueue<T> {
    /// Index of the right child of `ind`, which need not be an index of the queue.
    fn right_child(ind: usize) -> (r: usize)
        requires
            ind <= (usize::MAX - 2) / 2,
        ensures
            r == 2 * ind + 2,
            parent_of(r as int) == ind,
    {
        Self::left_child(ind) + 1
    }

    /// Index of the left child of `ind`, which need not be an index of the queue.
    fn left_child(ind: usize) -> (r: usize)
        requires
            ind <= (usize::MAX - 1) / 2,
        ensures
            r == 2 * ind + 1,
            parent_of(r as int) == ind,
    {
        proof {
            vstd::arithmetic::power2::lemma2_to64();
            vstd::bits::lemma_usize_shl_is_mul(ind, 1);
        }
        (ind << 1usize) + 1
    }

    /// Index of the parent of `ind`; the root is its own parent.
    fn parent(ind: usize) -> (r: usize)
        ensures
            ind == 0 ==> r == 0,
            ind > 0 ==> r == parent_of(ind as int) && r < ind,
    {
        if ind == 0 {
            0
        } else {
            let above: usize = ind - 1;
            assert(above >> 1 == above / 2) by (bit_vector);
            above >> 1
        }
    }

    /// Exchanges the elements at `i` and `j`.
    fn swap(&mut self, i: usize, j: usize)
        requires
            i < old(self)@.len(),
            j < old(self)@.len(),
        ensures
            final(self)@ == swapped(old(self)@, i as int, j as int),
            final(self)@.len() == old(self)@.len(),
            final(self)@.to_multiset() == old(self)@.to_multiset(),
    {
        proof {
            lemma_swapped_keeps_elements(self.arr@, i as int, j as int);
        }
        self.arr.swap(i, j);
    }

    /// Moves the last element up until its parent does not come after it.
    fn adjust_after_push(&mut self)
        requires
            old(self)@.len() > 0,
        ensures
            final(self)@.len() == old(self)@.len(),
            final(self)@.to_multiset() == old(self)@.to_multiset(),
            is_total_order::<T>() && is_heap(old(self)@.drop_last()) ==> is_heap(final(self)@),
            compares::<T>() ==> final(self)@ == sifted_up(old(self)@, old(self)@.len() - 1),
    {
        let mut index = self.arr.len() - 1;
        proof {
            if is_total_order::<T>() && is_heap(old(self)@.drop_last()) {
                let s = self@;
                assert forall|i: int| 0 < i < s.len() && i != index implies !precedes(
                    #[trigger] s[i],
                    s[parent_of(i)],
                ) by {
                    assert(s[i] == s.drop_last()[i]);
                    assert(s[parent_of(i)] == s.drop_last()[parent_of(i)]);
                }
            }
        }
        while index != 0
            invariant
                index < self@.len(),
                self@.len() == old(self)@.len(),
                self@.to_multiset() == old(self)@.to_multiset(),
                is_total_order::<T>() && is_heap(old(self)@.drop_last()) ==> is_heap_but_above(
                    self@,
                    index as int,
                ),
                compares::<T>() ==> sifted_up(self@, index as int) == sifted_up(
                    old(self)@,
                    old(self)@.len() - 1,
                ),
            ensures
                is_total_order::<T>() && is_heap(old(self)@.drop_last()) ==> is_heap(self@),
                compares::<T>() ==> self@ == sifted_up(old(self)@, old(self)@.len() - 1),
            decreases index,
        {
            let parent = Self::parent(index);
            let ghost before = self@;
            if self.arr[index] < self.arr[parent] {
                self.swap(index, parent);
                proof {
                    if is_total_order::<T>() && is_heap(old(self)@.drop_last()) {
                        Self::lemma_step_up(before, index as int);
                    }
                }
                index = parent;
            } else {
                proof {
                    if is_total_order::<T>() && is_heap(old(self)@.drop_last()) {
                        assert(!precedes(before[index as int], before[parent as int]));
                    }
                }
                break ;
            }
        }
    }

    /// One exchange on the way up keeps the order that the way up relies on.
    proof fn lemma_step_up(s: Seq<T>, hole: int)
        requires
            is_total_order::<T>(),
            0 < hole < s.len(),
            is_heap_but_above(s, hole),
            precedes(s[hole], s[parent_of(hole)]),
        ensures
            is_heap_but_above(swapped(s, hole, parent_of(hole)), parent_of(hole)),
    {
        let p = parent_of(hole);
        let t = swapped(s, hole, p);
        assert forall|i: int| 0 < i < t.len() && i != p implies !precedes(
            #[trigger] t[i],
            t[parent_of(i)],
        ) by {
            if i == hole {
            } else if parent_of(i) == hole {
                assert(!precedes(s[i], s[p]));
            } else if parent_of(i) == p {
                assert(!precedes(s[i], s[p]));
                assert(!precedes(s[p], s[hole]));
            } else {
                assert(!precedes(s[i], s[parent_of(i)]));
            }
        }
        assert forall|i: int| 0 < i < t.len() && parent_of(i) == p && p > 0 implies !precedes(
            #[trigger] t[i],
            t[parent_of(p)],
        ) by {
            assert(!precedes(s[p], s[parent_of(p)]));
            if i != hole {
                assert(!precedes(s[i], s[p]));
            }
        }
    }

    /// Moves the element at `index` down until neither child comes before it.
    fn adjust_after_decrease(&mut self, index: usize)
        ensures
            final(self)@.len() == old(self)@.len(),
            final(self)@.to_multiset() == old(self)@.to_multiset(),
            is_total_order::<T>() && is_heap_but_below(old(self)@, index as int) ==> is_heap(
                final(self)@,
            ),
            compares::<T>() ==> final(self)@ == sifted_down(old(self)@, index as int),
    {
        let mut index = index;
        let ghost start = index;
        loop
            invariant
                self@.len() == old(self)@.len(),
                self@.to_multiset() == old(self)@.to_multiset(),
                is_total_order::<T>() && is_heap_but_below(old(self)@, start as int)
                    ==> is_heap_but_below(self@, index as int),
                compares::<T>() ==> sifted_down(self@, index as int) == sifted_down(
                    old(self)@,
                    start as int,
                ),
            ensures
                is_total_order::<T>() && is_heap_but_below(old(self)@, start as int) ==> is_heap(
                    self@,
                ),
                compares::<T>() ==> self@ == sifted_down(old(self)@, start as int),
            decreases self@.len() - index,
        {
            let ghost before = self@;
            let len = self.arr.len();
            // The left child is at 2 * index + 1: there is none from here on.
            if index >= len || len - index - 1 <= index {
                proof {
                    Self::lemma_no_child(before, index as int);
                }
                break ;
            }
            let left = Self::left_child(index);
            let right = Self::right_child(index);
            let least = {
                if right >= self.arr.len() || self.arr[left] < self.arr[right] {
                    left
                } else {
                    right
                }
            };
            if self.arr[index] > self.arr[least] {
                proof {
                    assert(is_total_order::<T>() ==> follows(
                        before[index as int],
                        before[least as int],
                    ));
                }
                self.swap(index, least);
                proof {
                    if is_total_order::<T>() && is_heap_but_below(old(self)@, start as int) {
                        Self::lemma_step_down(before, index as int, least as int);
                    }
                }
                index = least;
                continue ;
            }
            proof {
                if is_total_order::<T>() && is_heap_but_below(old(self)@, start as int) {
                    assert(!follows(before[index as int], before[least as int]));
                    Self::lemma_settled(before, index as int, least as int);
                }
            }
            break ;
        }
    }

    /// Where the hole has no child, heap order holds everywhere.
    proof fn lemma_no_child(s: Seq<T>, hole: int)
        requires
            0 <= hole,
            2 * hole + 1 >= s.len(),
        ensures
            is_heap_but_below(s, hole) ==> is_heap(s),
    {
    }

    /// Where the least child of the hole does not come before it, heap order holds
    /// everywhere.
    proof fn lemma_settled(s: Seq<T>, hole: int, least: int)
        requires
            is_total_order::<T>(),
            is_heap_but_below(s, hole),
            0 <= hole,
            least < s.len(),
            least == 2 * hole + 1 || least == 2 * hole + 2,
            least == 2 * hole + 1 ==> (2 * hole + 2 >= s.len() || precedes(
                s[2 * hole + 1],
                s[2 * hole + 2],
            )),
            least == 2 * hole + 2 ==> !precedes(s[2 * hole + 1], s[2 * hole + 2]),
            !follows(s[hole], s[least]),
        ensures
            is_heap(s),
    {
        assert(!precedes(s[least], s[hole]));
        assert forall|i: int| 0 < i < s.len() implies !precedes(
            #[trigger] s[i],
            s[parent_of(i)],
        ) by {
            if parent_of(i) == hole {
                if i != least {
                    let l = 2 * hole + 1;
                    let r = 2 * hole + 2;
                    assert(i == l || i == r);
                    assert(!precedes(s[i], s[least]));
                }
            }
        }
    }

    /// One exchange on the way down keeps the order that the way down relies on.
    proof fn lemma_step_down(s: Seq<T>, hole: int, least: int)
        requires
            is_total_order::<T>(),
            is_heap_but_below(s, hole),
            0 <= hole,
            least < s.len(),
            least == 2 * hole + 1 || least == 2 * hole + 2,
            least == 2 * hole + 1 ==> (2 * hole + 2 >= s.len() || precedes(
                s[2 * hole + 1],
                s[2 * hole + 2],
            )),
            least == 2 * hole + 2 ==> !precedes(s[2 * hole + 1], s[2 * hole + 2]),
            follows(s[hole], s[least]),
        ensures
            is_heap_but_below(swapped(s, hole, least), least),
    {
        let t = swapped(s, hole, least);
        assert(precedes(s[least], s[hole]));
        assert forall|i: int| 0 < i < t.len() && parent_of(i) != least implies !precedes(
            #[trigger] t[i],
            t[parent_of(i)],
        ) by {
            if i == least {
            } else if parent_of(i) == hole {
                let l = 2 * hole + 1;
                let r = 2 * hole + 2;
                assert(i == l || i == r);
                assert(!precedes(s[i], s[least]));
            } else if i == hole {
                assert(!precedes(s[least], s[parent_of(hole)]));
            } else {
                assert(!precedes(s[i], s[parent_of(i)]));
            }
        }
        assert forall|i: int|
            0 < i < t.len() && parent_of(i) == least && least > 0 implies !precedes(
            #[trigger] t[i],
            t[parent_of(least)],
        ) by {
            assert(!precedes(s[i], s[parent_of(i)]));
        }
    }

    /// Restores heap order after the last element has taken the place of the root.
    fn adjust_after_poll(&mut self)
        ensures
            final(self)@.len() == old(self)@.len(),
            final(self)@.to_multiset() == old(self)@.to_multiset(),
            is_total_order::<T>() && is_heap_but_below(old(self)@, 0) ==> is_heap(final(self)@),
            compares::<T>() ==> final(self)@ == sifted_down(old(self)@, 0),
    {
        self.adjust_after_decrease(0);
    }

    /// Index of the first element, in storage order, that equals `item`.
    fn search(&self, item: &T) -> (r: Option<usize>)
        ensures
            r matches Some(i) ==> i < self@.len(),
            has_eq::<T>() ==> match r {
                Some(i) => is_first_match(self@, *item, i as int),
                None => !has_match(self@, *item),
            },
    {
        let mut ind: usize = 0;
        while ind < self.arr.len()
            invariant
                ind <= self@.len(),
                has_eq::<T>() ==> forall|j: int| 0 <= j < ind ==> !same(#[trigger] self@[j], *item),
            decreases self@.len() - ind,
        {
            if self.arr[ind] == *item {
                return Some(ind);
            }
            ind += 1;
        }
        None
    }

    /// An empty queue.
    pub fn new() -> (r: Self)
        ensures
            r@ == Seq::<T>::empty(),
            is_heap(r@),
    {
        PriorityQueue { arr: Vec::new() }
    }

    /// Adds `item`. A heap stays a heap.
    pub fn push(&mut self, item: T)
        ensures
            compares::<T>() ==> final(self)@ == pushed(old(self)@, item),
            final(self)@.to_multiset() == old(self)@.to_multiset().insert(item),
            final(self)@.len() == old(self)@.len() + 1,
            is_total_order::<T>() && is_heap(old(self)@) ==> is_heap(final(self)@),
    {
        proof {
            broadcast use vstd::seq_lib::to_multiset_build;

            assert(self@.push(item).drop_last() == self@);
        }
        self.arr.push(item);
        self.adjust_after_push();
    }

    /// Applies `apply` to the first element, in storage order, that equals `key`,
    /// then moves it down to where its children do not come before it. Fails with
    /// `NotFound`, and changes nothing, where no element equals `key`. A heap stays a
    /// heap where `apply` does not make the element come before what it was.
    pub fn update_key<F>(&mut self, key: T, apply: F) -> (r: Result<(), Error>) where
        F: Fn(&mut T) -> (),

        requires
            forall|x: &mut T| old(self)@.contains(*x) ==> call_requires(apply, (x,)),
        ensures
            match r {
                Err(e) => {
                    &&& e is NotFound
                    &&& final(self)@ == old(self)@
                    &&& has_eq::<T>() ==> !has_match(old(self)@, key)
                },
                Ok(_) => exists|i: int, x: &mut T|
                    #![trigger call_ensures(apply, (x,), ()), old(self)@[i]]
                    {
                        &&& 0 <= i < old(self)@.len()
                        &&& *x == old(self)@[i]
                        &&& call_ensures(apply, (x,), ())
                        &&& has_eq::<T>() ==> is_first_match(old(self)@, key, i)
                        &&& compares::<T>() ==> final(self)@ == sifted_down(
                            old(self)@.update(i, *final(x)),
                            i,
                        )
                        &&& final(self)@.to_multiset() == old(self)@.update(
                            i,
                            *final(x),
                        ).to_multiset()
                        &&& is_total_order::<T>() && is_heap(old(self)@) && !precedes(*final(x), *x)
                            ==> is_heap(final(self)@)
                    },
            },
    {
        let ind = self.search(&key);
        match ind {
            Some(ind) => {
                assert(self@.contains(self@[ind as int]));
                apply(&mut self.arr[ind]);
                proof {
                    let raised = self@[ind as int];
                    assert(self@ == old(self)@.update(ind as int, raised));
                    if is_total_order::<T>() && is_heap(old(self)@) && !precedes(
                        raised,
                        old(self)@[ind as int],
                    ) {
                        Self::lemma_raised(old(self)@, ind as int, raised);
                    }
                }
                self.adjust_after_decrease(ind);
                Ok(())
            },
            None => Err(Error::NotFound),
        }
    }

    /// Replacing an element of a heap by one that does not come before it breaks
    /// heap order between that element and its children at most.
    proof fn lemma_raised(s: Seq<T>, i: int, m: T)
        requires
            is_total_order::<T>(),
            is_heap(s),
            0 <= i < s.len(),
            !precedes(m, s[i]),
        ensures
            is_heap_but_below(s.update(i, m), i),
    {
        let t = s.update(i, m);
        assert forall|k: int| 0 < k < t.len() && parent_of(k) != i implies !precedes(
            #[trigger] t[k],
            t[parent_of(k)],
        ) by {
            assert(!precedes(s[k], s[parent_of(k)]));
        }
        assert forall|k: int| 0 < k < t.len() && parent_of(k) == i && i > 0 implies !precedes(
            #[trigger] t[k],
            t[parent_of(i)],
        ) by {
            assert(!precedes(s[k], s[i]));
            assert(!precedes(s[i], s[parent_of(i)]));
        }
    }

    /// Pushes every item that `items` yields, in the order in which it yields them.
    pub fn append<I>(&mut self, items: I) where I: Iterator<Item = T>
        requires
            items.obeys_prophetic_iter_laws(),
            items.decrease() is Some,
        ensures
            compares::<T>() ==> final(self)@ == pushed_all(old(self)@, items.remaining()),
            final(self)@.to_multiset() == old(self)@.to_multiset().add(
                items.remaining().to_multiset(),
            ),
            is_total_order::<T>() && is_heap(old(self)@) ==> is_heap(final(self)@),
    {
        let mut items = items;
        let ghost all = items.remaining();
        loop
            invariant
                items.obeys_prophetic_iter_laws(),
                items.decrease() is Some,
                compares::<T>() ==> pushed_all(self@, items.remaining()) == pushed_all(
                    old(self)@,
                    all,
                ),
                self@.to_multiset().add(items.remaining().to_multiset()) == old(
                    self
                )@.to_multiset().add(all.to_multiset()),
                is_total_order::<T>() && is_heap(old(self)@) ==> is_heap(self@),
            ensures
                compares::<T>() ==> self@ == pushed_all(old(self)@, all),
                self@.to_multiset() == old(self)@.to_multiset().add(all.to_multiset()),
                is_total_order::<T>() && is_heap(old(self)@) ==> is_heap(self@),
            decreases items.decrease()->0,
        {
            let ghost rest = items.remaining();
            match items.next() {
                Some(item) => {
                    proof {
                        broadcast use vstd::seq_lib::to_multiset_insert;

                        assert(rest == rest.drop_first().insert(0, item));
                    }
                    self.push(item);
                    assert(self@.to_multiset().add(items.remaining().to_multiset()) =~= old(
                        self
                    )@.to_multiset().add(all.to_multiset()));
                },
                None => {
                    proof {
                        rest.to_multiset_ensures();
                        vstd::multiset::lemma_multiset_empty_len(rest.to_multiset());
                        assert(self@.to_multiset().add(Multiset::<T>::empty()) =~= self@.to_multiset());
                    }
                    break ;
                },
            }
        }
    }

    /// Whether some element equals `item`.
    pub fn contains(&self, item: &T) -> (r: bool)
        ensures
            has_eq::<T>() ==> r == has_match(self@, *item),
    {
        match self.search(item) {
            Some(_) => true,
            None => false,
        }
    }

    /// Removes the root and returns it; `None` on an empty queue. A heap stays a
    /// heap, and its root is one of its least elements.
    pub fn poll(&mut self) -> (r: Option<T>)
        ensures
            old(self)@.len() == 0 ==> r is None && final(self)@ == old(self)@,
            old(self)@.len() > 0 ==> r == Some(old(self)@[0]) && old(self)@.to_multiset()
                == final(self)@.to_multiset().insert(old(self)@[0]) && final(self)@.len() + 1
                == old(self)@.len(),
            compares::<T>() ==> final(self)@ == polled(old(self)@),
            is_total_order::<T>() && is_heap(old(self)@) ==> is_heap(final(self)@),
    {
        if self.arr.len() == 0 {
            None
        } else if self.arr.len() == 1 {
            proof {
                broadcast use vstd::seq_lib::to_multiset_build;

                assert(self@ == Seq::<T>::empty().push(self@[0]));
                assert(self@.subrange(0, 0) == Seq::<T>::empty());
            }
            self.arr.pop()
        } else {
            let ind = self.arr.len() - 1;
            self.swap(0, ind);
            let ghost mid = self@;
            let result = self.arr.pop();
            proof {
                broadcast use vstd::seq_lib::to_multiset_build;

                assert(mid == self@.push(old(self)@[0]));
                if is_total_order::<T>() && is_heap(old(self)@) {
                    let s = self@;
                    assert forall|i: int| 0 < i < s.len() && parent_of(i) != 0 implies !precedes(
                        #[trigger] s[i],
                        s[parent_of(i)],
                    ) by {
                        assert(s[i] == old(self)@[i]);
                        assert(s[parent_of(i)] == old(self)@[parent_of(i)]);
                    }
                }
            }
            self.adjust_after_poll();
            result
        }
    }

    /// Whether the queue holds no element.
    pub fn empty(&self) -> (r: bool)
        ensures
            r == (self@.len() == 0),
    {
        self.arr.len() == 0
    }
}

} // verus!
