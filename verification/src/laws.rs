//! Laws of the ordered set, stated and proved over its abstract model.
//!
//! A `SeqSet` abstracts to the sequence of its elements in first-insertion
//! order, and each mutating operation abstracts to a transition on that
//! sequence, given by `apply_op` below. The contracts of `insert`, `remove`
//! and `clear` say exactly that the concrete set moves along these
//! transitions, so a law proved here about every sequence of transitions
//! holds of every sequence of calls on a well-formed set.

use crate::ordered_set::SeqSet;
use crate::ordered_set::SeqSetIntoIter;
use crate::ordered_set::SeqSetIter;
use std::hash::Hash;
use vstd::prelude::*;

verus! {

/// One mutating operation on an ordered set, at the level of the abstract
/// model.
pub enum SetOp<T> {
    /// `insert(value)`.
    Insert(T),
    /// `remove(&value)`.
    Remove(T),
    /// `clear()`.
    Clear,
}

/// The transition that one operation makes on the abstract state: exactly
/// what the `ensures` clauses of `insert`, `remove` and `clear` say about
/// the set's view.
pub open spec fn apply_op<T>(s: Seq<T>, op: SetOp<T>) -> Seq<T> {
    match op {
        SetOp::Insert(v) => if s.contains(v) {
            s
        } else {
            s.push(v)
        },
        SetOp::Remove(v) => s.remove_value(v),
        SetOp::Clear => Seq::empty(),
    }
}

/// The abstract state after a whole sequence of operations, first to last.
pub open spec fn apply_ops<T>(s: Seq<T>, ops: Seq<SetOp<T>>) -> Seq<T>
    decreases ops.len(),
{
    if ops.len() == 0 {
        s
    } else {
        apply_ops(apply_op(s, ops[0]), ops.drop_first())
    }
}

/// How many operations of `ops` insert an element that is absent when the
/// operation is reached: the inserts that return `true`.
pub open spec fn successful_inserts<T>(s: Seq<T>, ops: Seq<SetOp<T>>) -> int
    decreases ops.len(),
{
    if ops.len() == 0 {
        0
    } else {
        (match ops[0] {
            SetOp::Insert(v) => if s.contains(v) {
                0int
            } else {
                1int
            },
            _ => 0int,
        }) + successful_inserts(apply_op(s, ops[0]), ops.drop_first())
    }
}

/// How many operations of `ops` remove an element that is present when the
/// operation is reached: the removals that return `true`.
pub open spec fn successful_removes<T>(s: Seq<T>, ops: Seq<SetOp<T>>) -> int
    decreases ops.len(),
{
    if ops.len() == 0 {
        0
    } else {
        (match ops[0] {
            SetOp::Remove(v) => if s.contains(v) {
                1int
            } else {
                0int
            },
            _ => 0int,
        }) + successful_removes(apply_op(s, ops[0]), ops.drop_first())
    }
}

/// Removing the first occurrence of a value shortens a sequence by one
/// exactly when the value occurs; otherwise it leaves the sequence as it
/// was.
pub proof fn lemma_remove_value_len<T>(s: Seq<T>, v: T)
    ensures
        s.contains(v) ==> s.remove_value(v).len() == s.len() - 1,
        !s.contains(v) ==> s.remove_value(v) == s,
{
    s.index_of_first_ensures(v);
}

/// For every starting state and every sequence of insert and remove
/// operations, the number of elements afterwards equals the starting number
/// plus the number of successful inserts minus the number of successful
/// removals.
pub proof fn lemma_len_tracks_operations<T>(s: Seq<T>, ops: Seq<SetOp<T>>)
    requires
        forall|k: int| 0 <= k < ops.len() ==> !((#[trigger] ops[k]) is Clear),
    ensures
        apply_ops(s, ops).len() == s.len() + successful_inserts(s, ops) - successful_removes(
            s,
            ops,
        ),
    decreases ops.len(),
{
    if ops.len() > 0 {
        let rest = ops.drop_first();
        match ops[0] {
            SetOp::Insert(v) => {},
            SetOp::Remove(v) => {
                lemma_remove_value_len(s, v);
            },
            SetOp::Clear => {
                assert(false);
            },
        }
        assert forall|k: int| 0 <= k < rest.len() implies !((#[trigger] rest[k]) is Clear) by {
            assert(rest[k] == ops[k + 1]);
        }
        lemma_len_tracks_operations(apply_op(s, ops[0]), rest);
    }
}

/// After a successful insert of a value, the set contains that value.
pub proof fn lemma_insert_establishes_contains<T>(s: Seq<T>, v: T)
    ensures
        apply_op(s, SetOp::Insert(v)).contains(v),
{
    if !s.contains(v) {
        assert(s.push(v)[s.len() as int] == v);
    }
}

/// A contained value stays contained across any single operation that is
/// neither a removal of that value nor a clear.
pub proof fn lemma_contains_stable<T>(s: Seq<T>, op: SetOp<T>, v: T)
    requires
        s.contains(v),
        op != SetOp::Remove(v),
        !(op is Clear),
    ensures
        apply_op(s, op).contains(v),
{
    let k = choose|k: int| 0 <= k < s.len() && s[k] == v;
    match op {
        SetOp::Insert(w) => {
            if !s.contains(w) {
                assert(s.push(w)[k] == v);
            }
        },
        SetOp::Remove(w) => {
            s.index_of_first_ensures(w);
            if s.contains(w) {
                let m = s.index_of_first(w).unwrap();
                s.remove_ensures(m);
                assert(s[m] == w);
                if k < m {
                    assert(s.remove(m)[k] == v);
                } else {
                    assert(s.remove(m)[k - 1] == v);
                }
            }
        },
        SetOp::Clear => {},
    }
}

/// Once inserted, a value answers `contains` with `true` until a successful
/// removal of that value or a clear: it survives every sequence of
/// operations that holds neither.
pub proof fn lemma_contains_until_removed<T>(s: Seq<T>, ops: Seq<SetOp<T>>, v: T)
    requires
        s.contains(v),
        forall|k: int|
            0 <= k < ops.len() ==> (#[trigger] ops[k]) != SetOp::Remove(v) && !(ops[k] is Clear),
    ensures
        apply_ops(s, ops).contains(v),
    decreases ops.len(),
{
    if ops.len() > 0 {
        let rest = ops.drop_first();
        lemma_contains_stable(s, ops[0], v);
        assert forall|k: int|
            0 <= k < rest.len() implies (#[trigger] rest[k]) != SetOp::Remove(v) && !(rest[k]
            is Clear) by {
            assert(rest[k] == ops[k + 1]);
        }
        lemma_contains_until_removed(apply_op(s, ops[0]), rest, v);
    }
}

/// `v1` comes somewhere before `v2` in the traversal order of `s`.
pub open spec fn precedes<T>(s: Seq<T>, v1: T, v2: T) -> bool {
    exists|i: int, j: int| 0 <= i < j < s.len() && s[i] == v1 && s[j] == v2
}

/// Order stability across one operation: if `v1` precedes `v2`, it still
/// does after any operation that removes neither value and is not a clear.
pub proof fn lemma_order_stable<T>(s: Seq<T>, op: SetOp<T>, v1: T, v2: T)
    requires
        precedes(s, v1, v2),
        op != SetOp::Remove(v1),
        op != SetOp::Remove(v2),
        !(op is Clear),
    ensures
        precedes(apply_op(s, op), v1, v2),
{
    let (i, j) = choose|i: int, j: int| 0 <= i < j < s.len() && s[i] == v1 && s[j] == v2;
    match op {
        SetOp::Insert(w) => {
            if !s.contains(w) {
                assert(s.push(w)[i] == v1);
                assert(s.push(w)[j] == v2);
            }
        },
        SetOp::Remove(w) => {
            s.index_of_first_ensures(w);
            if s.contains(w) {
                let m = s.index_of_first(w).unwrap();
                s.remove_ensures(m);
                assert(s[m] == w);
                let ii: int = if i < m {
                    i
                } else {
                    i - 1
                };
                let jj: int = if j < m {
                    j
                } else {
                    j - 1
                };
                assert(s.remove(m)[ii] == v1);
                assert(s.remove(m)[jj] == v2);
                assert(0 <= ii < jj < s.remove(m).len());
            }
        },
        SetOp::Clear => {},
    }
}

/// Order stability across whole runs: for values inserted in a given order
/// and still present, the first keeps preceding the second in every
/// traversal, whatever insert and remove activity touches other elements.
pub proof fn lemma_order_stable_all<T>(s: Seq<T>, ops: Seq<SetOp<T>>, v1: T, v2: T)
    requires
        precedes(s, v1, v2),
        forall|k: int|
            0 <= k < ops.len() ==> (#[trigger] ops[k]) != SetOp::Remove(v1) && ops[k]
                != SetOp::Remove(v2) && !(ops[k] is Clear),
    ensures
        precedes(apply_ops(s, ops), v1, v2),
    decreases ops.len(),
{
    if ops.len() > 0 {
        let rest = ops.drop_first();
        lemma_order_stable(s, ops[0], v1, v2);
        assert forall|k: int|
            0 <= k < rest.len() implies (#[trigger] rest[k]) != SetOp::Remove(v1) && rest[k]
            != SetOp::Remove(v2) && !(rest[k] is Clear) by {
            assert(rest[k] == ops[k + 1]);
        }
        lemma_order_stable_all(apply_op(s, ops[0]), rest, v1, v2);
    }
}

/// Re-inserting an element right after removing it places it at the current
/// end of the traversal order, not back at its original position.
pub proof fn lemma_reinsert_appends<T>(s: Seq<T>, v: T)
    requires
        s.no_duplicates(),
        s.contains(v),
    ensures
        apply_op(apply_op(s, SetOp::Remove(v)), SetOp::Insert(v)) == s.remove_value(v).push(v),
        apply_op(apply_op(s, SetOp::Remove(v)), SetOp::Insert(v)).last() == v,
{
    s.index_of_first_ensures(v);
    let i = s.index_of_first(v).unwrap();
    s.remove_ensures(i);
    if s.remove(i).contains(v) {
        let k = choose|k: int| 0 <= k < s.remove(i).len() && s.remove(i)[k] == v;
        let sk: int = if k < i {
            k
        } else {
            k + 1
        };
        assert(s[sk] == v);
        assert(s[i] == v);
        assert(false);
    }
    assert(s.remove_value(v).push(v).last() == v);
}

/// A cleared set behaves on every query as a freshly constructed one: its
/// abstract state is the empty sequence, which contains nothing and has
/// length zero.
pub proof fn lemma_clear_like_new<T>(s: Seq<T>, v: T)
    ensures
        apply_op(s, SetOp::Clear) == Seq::<T>::empty(),
        !apply_op(s, SetOp::Clear).contains(v),
        apply_op(s, SetOp::Clear).len() == 0,
{
}

/// A consuming traversal and a borrowing traversal taken from the same set
/// at the same moment walk the same sequence: element for element in the
/// same order, by the contracts of their `next` methods, and both are
/// exhausted after exactly the set's number of elements.
pub proof fn lemma_traversals_agree<'a, T: Eq + Hash + Clone>(
    source: SeqSet<T>,
    borrowed: SeqSetIter<'a, T>,
    consuming: SeqSetIntoIter<T>,
)
    requires
        borrowed.remaining() == source@,
        consuming.remaining() == source@,
    ensures
        borrowed.remaining() == consuming.remaining(),
        consuming.remaining().len() == source@.len(),
{
}

} // verus!
