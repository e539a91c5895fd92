//! Laws that relate several operations of the tail list.

use vstd::prelude::*;

verus! {

/// The value sequence obtained by pushing `vs[0]`, `vs[1]`, ... onto an
/// empty list in that order: each push prepends its value, exactly as
/// `TailList::push` ensures.
pub open spec fn pushed_values<T>(vs: Seq<T>) -> Seq<T>
    decreases vs.len(),
{
    if vs.len() == 0 {
        Seq::empty()
    } else {
        seq![vs.last()] + pushed_values(vs.drop_last())
    }
}

/// Order preservation: pushing `vs[0], ..., vs[n-1]` in that order yields
/// the list `vs[n-1], ..., vs[0]` — most recently pushed first.  Draining a
/// fresh cursor then returns exactly that sequence, since `cursor` ensures
/// the cursor's remainder is `values()` and every `next` yields the head of
/// the remainder.
pub proof fn lemma_order_preservation<T>(vs: Seq<T>)
    ensures
        pushed_values(vs) == vs.reverse(),
    decreases vs.len(),
{
    if vs.len() == 0 {
        assert(pushed_values(vs) =~= vs.reverse());
    } else {
        lemma_order_preservation(vs.drop_last());
        assert(pushed_values(vs) =~= vs.reverse());
    }
}

} // verus!
