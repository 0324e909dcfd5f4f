//! The ordered set itself: a hash-set index for fast membership beside a
//! vector that holds the same elements in first-insertion order.

use std::collections::HashSet;
use std::hash::Hash;
use vstd::prelude::*;
use vstd::std_specs::cmp::PartialEqSpec;
use vstd::std_specs::hash::obeys_key_model;

verus! {

broadcast use vstd::std_specs::hash::group_hash_axioms;

/// The conditions on the element type under which the set's contracts hold:
/// the std hash table must treat `T` keys according to their abstract value,
/// `==` on `T` must agree with mathematical equality, and cloning a `T` must
/// reproduce the same abstract value. All three hold for the integer and
/// string-slice element types the set is typically used with.
pub open spec fn obeys_element_model<T: Eq + Hash + Clone>() -> bool {
    &&& obeys_key_model::<T>()
    &&& T::obeys_eq_spec()
    &&& forall|a: T, b: T| #[trigger] a.eq_spec(&b) <==> a == b
    &&& forall|a: T, b: T| #[trigger] vstd::pervasive::cloned::<T>(a, b) ==> a == b
}

/// Returns the position of the first element of `order` equal to `value`,
/// by a linear scan.
fn position_in<T: Eq + Hash + Clone>(order: &Vec<T>, value: &T) -> (i: usize)
    requires
        obeys_element_model::<T>(),
        order@.contains(*value),
    ensures
        i < order@.len(),
        order@[i as int] == *value,
        forall|j: int| 0 <= j < i ==> order@[j] != *value,
{
    let n = order.len();
    let mut i: usize = 0;
    loop
        invariant
            obeys_element_model::<T>(),
            order@.contains(*value),
            n == order@.len(),
            i <= n,
            forall|j: int| 0 <= j < i ==> order@[j] != *value,
        decreases order@.len() - i,
    {
        proof {
            if i == order@.len() {
                let w = choose|w: int| 0 <= w < order@.len() && order@[w] == *value;
                assert(order@[w] != *value);
                assert(false);
            }
            assert(i < order@.len());
        }
        if order[i].eq(value) {
            return i;
        }
        i = i + 1;
    }
}

/// Appending a value to a sequence adds exactly that value to the
/// sequence's set of elements.
proof fn lemma_push_to_set<T>(s: Seq<T>, v: T)
    ensures
        s.push(v).to_set() == s.to_set().insert(v),
{
    assert forall|a: T| s.push(v).to_set().contains(a) implies s.to_set().insert(v).contains(
        a,
    ) by {
        let w = choose|w: int| 0 <= w < s.push(v).len() && s.push(v)[w] == a;
        if w < s.len() {
            assert(s[w] == a);
        } else {
            assert(a == v);
        }
    }
    assert forall|a: T| s.to_set().insert(v).contains(a) implies s.push(v).to_set().contains(
        a,
    ) by {
        if a == v {
            assert(s.push(v)[s.len() as int] == a);
        } else {
            let w = choose|w: int| 0 <= w < s.len() && s[w] == a;
            assert(s.push(v)[w] == a);
        }
    }
    assert(s.push(v).to_set() =~= s.to_set().insert(v));
}

/// Appending a value that a duplicate-free sequence does not hold leaves it
/// duplicate-free.
proof fn lemma_push_keeps_distinct<T>(s: Seq<T>, v: T)
    requires
        s.no_duplicates(),
        !s.contains(v),
    ensures
        s.push(v).no_duplicates(),
{
    assert forall|p: int, q: int|
        0 <= p < s.push(v).len() && 0 <= q < s.push(v).len() && p != q implies s.push(v)[p]
        != s.push(v)[q] by {
        if p == s.len() && q < s.len() {
            if s[q] == v {
                assert(s.contains(v));
            }
        } else if q == s.len() && p < s.len() {
            if s[p] == v {
                assert(s.contains(v));
            }
        }
    }
}

/// Excising one position of a duplicate-free sequence leaves it
/// duplicate-free.
proof fn lemma_remove_at_keeps_distinct<T>(s: Seq<T>, i: int)
    requires
        0 <= i < s.len(),
        s.no_duplicates(),
    ensures
        s.remove(i).no_duplicates(),
{
    s.remove_ensures(i);
    assert forall|p: int, q: int|
        0 <= p < s.remove(i).len() && 0 <= q < s.remove(i).len() && p != q implies s.remove(
        i,
    )[p] != s.remove(i)[q] by {
        let sp: int = if p < i { p } else { p + 1 };
        let sq: int = if q < i { q } else { q + 1 };
        assert(s.remove(i)[p] == s[sp]);
        assert(s.remove(i)[q] == s[sq]);
    }
}

/// For a duplicate-free sequence, excising the one position that holds a
/// value takes exactly that value out of the sequence's set of elements.
proof fn lemma_remove_at_to_set<T>(s: Seq<T>, i: int)
    requires
        0 <= i < s.len(),
        s.no_duplicates(),
    ensures
        s.remove(i).to_set() == s.to_set().remove(s[i]),
{
    s.remove_ensures(i);
    assert forall|a: T| s.remove(i).to_set().contains(a) implies s.to_set().remove(
        s[i],
    ).contains(a) by {
        let w = choose|w: int| 0 <= w < s.remove(i).len() && s.remove(i)[w] == a;
        let sw: int = if w < i { w } else { w + 1 };
        assert(s[sw] == a);
        assert(a != s[i]);
    }
    assert forall|a: T| s.to_set().remove(s[i]).contains(a) implies s.remove(
        i,
    ).to_set().contains(a) by {
        let w = choose|w: int| 0 <= w < s.len() && s[w] == a;
        assert(w != i);
        if w < i {
            assert(s.remove(i)[w] == a);
        } else {
            assert(s.remove(i)[w - 1] == a);
        }
    }
    assert(s.remove(i).to_set() =~= s.to_set().remove(s[i]));
}

/// A set collection that maintains a deterministic insertion order.
///
/// `index` answers membership queries in O(1) on average; `order` holds
/// exactly the same elements, in the order they were first inserted.
#[derive(Debug)]
pub struct SeqSet<T> where T: Eq + Hash + Clone {
    index: HashSet<T>,
    order: Vec<T>,
}

impl<T> View for SeqSet<T> where T: Eq + Hash + Clone {
    type V = Seq<T>;

    /// A `SeqSet` abstracts to the sequence of its elements in
    /// first-insertion order.
    closed spec fn view(&self) -> Seq<T> {
        self.order@
    }
}

impl<T> SeqSet<T> where T: Eq + Hash + Clone {
    /// The membership index, as the set of elements it currently holds.
    pub closed spec fn index_view(self) -> Set<T> {
        self.index@
    }

    /// Well-formedness: the element type behaves as required, no element
    /// occurs twice in the order sequence, and the index holds exactly the
    /// elements of the order sequence.
    pub closed spec fn wf(self) -> bool {
        &&& obeys_element_model::<T>()
        &&& self.order@.no_duplicates()
        &&& self.index@ == self.order@.to_set()
    }

    /// The bijection between the two internal structures: in a well-formed
    /// set the traversal order holds each element exactly once, the
    /// membership index holds exactly the elements of the traversal order,
    /// and both have the same number of entries.
    pub proof fn lemma_wf_bijection(self)
        requires
            self.wf(),
        ensures
            self@.no_duplicates(),
            self.index_view() == self@.to_set(),
            self.index_view().len() == self@.len(),
    {
        self@.unique_seq_to_set();
    }

    /// Creates an empty set.
    pub fn new() -> (result: Self)
        requires
            obeys_element_model::<T>(),
        ensures
            result.wf(),
            result@ == Seq::<T>::empty(),
    {
        let result = SeqSet { index: HashSet::new(), order: Vec::new() };
        proof {
            assert(result.order@.to_set() =~= Set::<T>::empty());
        }
        result
    }

    /// Checks if the set contains a value.
    pub fn contains(&self, value: &T) -> (result: bool)
        requires
            self.wf(),
        ensures
            result == self@.contains(*value),
    {
        self.index.contains(value)
    }

    /// Inserts a value into the set.
    ///
    /// Returns `true` if the value was not present in the set; it is then
    /// appended at the end of the insertion order. Returns `false` if the
    /// value was already present; the set, including its order, is then
    /// unchanged.
    pub fn insert(&mut self, value: T) -> (result: bool)
        requires
            old(self).wf(),
        ensures
            final(self).wf(),
            result == !old(self)@.contains(value),
            result ==> final(self)@ == old(self)@.push(value),
            !result ==> final(self)@ == old(self)@,
    {
        let copy = value.clone();
        proof {
            assert(vstd::pervasive::cloned::<T>(value, copy));
            assert(copy == value);
        }
        if self.index.insert(copy) {
            proof {
                lemma_push_to_set(old(self).order@, value);
                lemma_push_keeps_distinct(old(self).order@, value);
            }
            self.order.push(value);
            true
        } else {
            proof {
                assert(old(self).index@.insert(value) =~= old(self).index@);
            }
            false
        }
    }

    /// Removes a value from the set.
    ///
    /// Returns `true` if the value was present: it is then removed from both
    /// the index and the order sequence, the later elements moving down one
    /// position. Returns `false` if the value was not present; the set is
    /// then unchanged.
    pub fn remove(&mut self, value: &T) -> (result: bool)
        requires
            old(self).wf(),
        ensures
            final(self).wf(),
            result == old(self)@.contains(*value),
            result ==> final(self)@ == old(self)@.remove_value(*value),
            !result ==> final(self)@ == old(self)@,
    {
        let ghost original = old(self).order@;
        if self.index.remove(value) {
            proof {
                assert(old(self).index@.contains(*value));
                assert(original.contains(*value));
            }
            let i = position_in(&self.order, value);
            proof {
                original.index_of_first_ensures(*value);
                let first = original.index_of_first(*value).unwrap();
                if first < i {
                    assert(original[first] != *value);
                }
                if first > i {
                    assert(original[i as int] != *value);
                }
                assert(first == i);
                lemma_remove_at_keeps_distinct(original, i as int);
                lemma_remove_at_to_set(original, i as int);
            }
            self.order.remove(i);
            true
        } else {
            proof {
                assert(old(self).index@.remove(*value) =~= old(self).index@);
            }
            false
        }
    }

    /// Clears all elements from the set.
    pub fn clear(&mut self)
        requires
            old(self).wf(),
        ensures
            final(self).wf(),
            final(self)@ == Seq::<T>::empty(),
    {
        self.index.clear();
        self.order.clear();
        proof {
            assert(final(self).order@.to_set() =~= Set::<T>::empty());
        }
    }

    /// Returns the number of elements in the set.
    pub fn len(&self) -> (result: usize)
        requires
            self.wf(),
        ensures
            result == self@.len(),
    {
        proof {
            self.order@.unique_seq_to_set();
        }
        self.index.len()
    }

    /// Returns `true` if the set contains no elements.
    pub fn is_empty(&self) -> (result: bool)
        requires
            self.wf(),
        ensures
            result == (self@.len() == 0),
    {
        proof {
            self.order@.unique_seq_to_set();
        }
        self.index.is_empty()
    }

    /// Returns a borrowing traversal over the elements in insertion order.
    pub fn iter<'a>(&'a self) -> (r: SeqSetIter<'a, T>)
        ensures
            r.wf(),
            r.remaining() == self@,
    {
        let r = SeqSetIter { elems: &self.order, pos: 0 };
        proof {
            assert(r.remaining() =~= self.order@);
        }
        r
    }

    /// Returns a mutable traversal over the elements in insertion order: a
    /// cursor whose `next` hands out an exclusive reference to one element
    /// at a time.
    pub fn iter_mut(&mut self) -> (r: SeqSetIterMut)
        ensures
            *final(self) == *old(self),
            r.position() == 0,
    {
        SeqSetIterMut { pos: 0 }
    }

    /// Converts the set into a consuming traversal that yields its elements
    /// by value, in insertion order. The set is gone afterwards.
    pub fn into_iter(self) -> (r: SeqSetIntoIter<T>)
        ensures
            r.remaining() == self@,
    {
        SeqSetIntoIter { rest: self.order }
    }
}

/// A borrowing traversal over a `SeqSet`: lazy, finite, one-shot, yielding
/// read-only references in insertion order. A fresh call of `iter` yields a
/// fresh traversal.
pub struct SeqSetIter<'a, T> {
    elems: &'a Vec<T>,
    pos: usize,
}

impl<'a, T> SeqSetIter<'a, T> {
    /// The elements the traversal has not yielded yet, in order.
    pub closed spec fn remaining(self) -> Seq<T> {
        self.elems@.skip(self.pos as int)
    }

    /// The cursor never runs past the end of the borrowed elements.
    pub closed spec fn wf(self) -> bool {
        self.pos <= self.elems@.len()
    }

    /// Yields a reference to the next element in insertion order, or `None`
    /// once every element has been yielded.
    pub fn next(&mut self) -> (r: Option<&'a T>)
        requires
            old(self).wf(),
        ensures
            final(self).wf(),
            old(self).remaining().len() > 0 ==> {
                &&& r is Some
                &&& *r.unwrap() == old(self).remaining()[0]
                &&& final(self).remaining() == old(self).remaining().drop_first()
            },
            old(self).remaining().len() == 0 ==> r is None && *final(self) == *old(self),
    {
        let elems = self.elems;
        if self.pos < elems.len() {
            let r = &elems[self.pos];
            proof {
                assert(elems@.skip(self.pos as int + 1) =~= elems@.skip(
                    self.pos as int,
                ).drop_first());
            }
            self.pos = self.pos + 1;
            Some(r)
        } else {
            None
        }
    }
}

/// A consuming traversal over a `SeqSet`: yields the elements by value, in
/// insertion order, releasing them one at a time.
pub struct SeqSetIntoIter<T> {
    rest: Vec<T>,
}

impl<T> SeqSetIntoIter<T> {
    /// The elements the traversal has not yielded yet, in order.
    pub closed spec fn remaining(self) -> Seq<T> {
        self.rest@
    }

    /// Yields the next element in insertion order, or `None` once every
    /// element has been yielded.
    pub fn next(&mut self) -> (r: Option<T>)
        ensures
            old(self).remaining().len() > 0 ==> {
                &&& r == Some(old(self).remaining()[0])
                &&& final(self).remaining() == old(self).remaining().drop_first()
            },
            old(self).remaining().len() == 0 ==> r is None && *final(self) == *old(self),
    {
        if self.rest.len() > 0 {
            let v = self.rest.remove(0);
            proof {
                assert(old(self).rest@.remove(0) =~= old(self).rest@.drop_first());
            }
            Some(v)
        } else {
            None
        }
    }
}

/// A mutable traversal over a `SeqSet`: a cursor that hands out an exclusive
/// reference to one element after another, in insertion order, so a caller
/// can change elements in place without touching membership or order.
///
/// The caller must not change an element in a way that alters its identity
/// under equality and hashing: the membership index is not rehashed on such
/// a write, so `wf` — and with it the contracts of `contains`, `len` and the
/// other index-backed operations — survives only writes that keep each
/// element's identity, as `next`'s contract states. Order-based traversal
/// (`iter`, `into_iter`) is unaffected either way.
pub struct SeqSetIterMut {
    pos: usize,
}

impl SeqSetIterMut {
    /// How many elements the cursor has already yielded.
    pub closed spec fn position(self) -> usize {
        self.pos
    }

    /// Yields an exclusive reference to the next element of `source` in
    /// insertion order, or `None` once every element has been yielded.
    ///
    /// The membership index of `source` is left untouched: well-formedness
    /// is kept only when the value written back equals the value read, and
    /// breaks otherwise, as described on the type.
    pub fn next<'a, T: Eq + Hash + Clone>(&mut self, source: &'a mut SeqSet<T>) -> (r: Option<
        &'a mut T,
    >)
        ensures
            old(source)@.len() <= old(self).position() ==> {
                &&& r is None
                &&& *final(source) == *old(source)
                &&& *final(self) == *old(self)
            },
            old(self).position() < old(source)@.len() ==> {
                &&& r is Some
                &&& final(self).position() == old(self).position() + 1
                &&& *r.unwrap() == old(source)@[old(self).position() as int]
                &&& final(source)@ == old(source)@.update(
                    old(self).position() as int,
                    *final(r.unwrap()),
                )
                &&& final(source).index_view() == old(source).index_view()
                &&& (old(source).wf() && *final(r.unwrap()) == old(source)@[old(
                    self,
                ).position() as int]) ==> final(source).wf()
            },
    {
        if self.pos < source.order.len() {
            let i = self.pos;
            self.pos = i + 1;
            let elem = &mut source.order[i];
            proof {
                assert(old(source).order@.update(i as int, old(source).order@[i as int])
                    =~= old(source).order@);
            }
            Some(elem)
        } else {
            None
        }
    }
}

} // verus!
