//! What sequences of calls do to a list, stated over its view.
use vstd::prelude::*;

verus! {

/// The items of a list that held `s`, after `push` was called with each of
/// `vals` in turn.
pub open spec fn after_pushes<T>(s: Seq<T>, vals: Seq<T>) -> Seq<T>
    decreases vals.len(),
{
    if vals.len() == 0 {
        s
    } else {
        after_pushes(s.push(vals[0]), vals.skip(1))
    }
}

/// The items of a list that held `s`, after `push_front` was called with each
/// of `vals` in turn.
pub open spec fn after_push_fronts<T>(s: Seq<T>, vals: Seq<T>) -> Seq<T>
    decreases vals.len(),
{
    if vals.len() == 0 {
        s
    } else {
        after_push_fronts(seq![vals[0]] + s, vals.skip(1))
    }
}

/// The values that `pop_front` returns, called on a list holding `s` until it
/// returns None.
pub open spec fn drained_front<T>(s: Seq<T>) -> Seq<T>
    decreases s.len(),
{
    if s.len() == 0 {
        Seq::empty()
    } else {
        seq![s.first()] + drained_front(s.skip(1))
    }
}

/// The values that `pop` returns, called on a list holding `s` until it
/// returns None.
pub open spec fn drained_back<T>(s: Seq<T>) -> Seq<T>
    decreases s.len(),
{
    if s.len() == 0 {
        Seq::empty()
    } else {
        seq![s.last()] + drained_back(s.drop_last())
    }
}

/// Pushing each of `vals` at the back appends them in push order.
pub proof fn lemma_pushes_append<T>(s: Seq<T>, vals: Seq<T>)
    ensures
        after_pushes(s, vals) == s + vals,
    decreases vals.len(),
{
    if vals.len() > 0 {
        lemma_pushes_append(s.push(vals[0]), vals.skip(1));
        assert(s.push(vals[0]) + vals.skip(1) =~= s + vals);
    } else {
        assert(s + vals =~= s);
    }
}

/// Pushing each of `vals` at the back of an empty list gives a list of
/// `vals.len()` items that iterates in push order.
pub proof fn lemma_pushes_in_order<T>(vals: Seq<T>)
    ensures
        after_pushes(Seq::empty(), vals) == vals,
        after_pushes(Seq::empty(), vals).len() == vals.len(),
{
    lemma_pushes_append(Seq::<T>::empty(), vals);
    assert(Seq::<T>::empty() + vals =~= vals);
}

/// Pushing each of `vals` at the front puts them before `s` in reverse push
/// order.
pub proof fn lemma_push_fronts_prepend<T>(s: Seq<T>, vals: Seq<T>)
    ensures
        after_push_fronts(s, vals) == vals.reverse() + s,
    decreases vals.len(),
{
    if vals.len() > 0 {
        lemma_push_fronts_prepend(seq![vals[0]] + s, vals.skip(1));
        assert(vals.skip(1).reverse() + (seq![vals[0]] + s) =~= vals.reverse() + s);
    } else {
        assert(vals.reverse() + s =~= s);
    }
}

/// Pushing each of `vals` at the front of an empty list gives a list that
/// iterates in reverse push order.
pub proof fn lemma_push_fronts_reversed<T>(vals: Seq<T>)
    ensures
        after_push_fronts(Seq::empty(), vals) == vals.reverse(),
{
    lemma_push_fronts_prepend(Seq::<T>::empty(), vals);
    assert(vals.reverse() + Seq::<T>::empty() =~= vals.reverse());
}

/// A `push` followed by a `pop` restores the length and returns the pushed
/// value.
pub proof fn lemma_push_then_pop<T>(s: Seq<T>, x: T)
    ensures
        s.push(x).len() > 0,
        s.push(x).last() == x,
        s.push(x).drop_last() == s,
        s.push(x).drop_last().len() == s.len(),
{
    assert(s.push(x).drop_last() =~= s);
}

/// Draining a list from the front returns its items in order.
pub proof fn lemma_drained_front<T>(s: Seq<T>)
    ensures
        drained_front(s) == s,
    decreases s.len(),
{
    if s.len() > 0 {
        lemma_drained_front(s.skip(1));
        assert(seq![s.first()] + s.skip(1) =~= s);
    } else {
        assert(s =~= Seq::<T>::empty());
    }
}

/// Draining a list from the back returns its items in reverse order.
pub proof fn lemma_drained_back<T>(s: Seq<T>)
    ensures
        drained_back(s) == s.reverse(),
    decreases s.len(),
{
    if s.len() > 0 {
        lemma_drained_back(s.drop_last());
        assert(seq![s.last()] + s.drop_last().reverse() =~= s.reverse());
    } else {
        assert(s.reverse() =~= Seq::<T>::empty());
    }
}

/// Whatever calls led to a list, its length is the number of values that
/// draining it by `pop` yields, and by `pop_front` too.
pub proof fn lemma_drain_count<T>(s: Seq<T>)
    ensures
        drained_back(s).len() == s.len(),
        drained_front(s).len() == s.len(),
{
    lemma_drained_back(s);
    lemma_drained_front(s);
}

/// Pushing `vals` at the back of an empty list and then popping every item
/// from the front yields `vals`; popping from the back yields them reversed.
pub proof fn lemma_round_trip<T>(vals: Seq<T>)
    ensures
        drained_front(after_pushes(Seq::empty(), vals)) == vals,
        drained_back(after_pushes(Seq::empty(), vals)) == vals.reverse(),
{
    lemma_pushes_in_order(vals);
    lemma_drained_front(vals);
    lemma_drained_back(vals);
}

} // verus!
