//! Storing a list into a buffer that may be too short for it.

use vstd::prelude::*;

verus! {

/// The smaller of two lengths.
pub open spec fn least(a: int, b: int) -> int {
    if a <= b {
        a
    } else {
        b
    }
}

/// `buf` after the first `buf.len()` items of `list` were stored at its front.
pub open spec fn stored<T>(buf: Seq<T>, list: Seq<T>) -> Seq<T> {
    Seq::new(
        buf.len(),
        |i: int|
            if i < list.len() {
                list[i]
            } else {
                buf[i]
            },
    )
}

/// Appending one item to a stored list.
pub(crate) proof fn lemma_stored_push<T>(buf: Seq<T>, list: Seq<T>, item: T)
    ensures
        list.len() < buf.len() ==> stored(buf, list.push(item)) == stored(buf, list).update(
            list.len() as int,
            item,
        ),
        list.len() >= buf.len() ==> stored(buf, list.push(item)) == stored(buf, list),
{
    if list.len() < buf.len() {
        assert(stored(buf, list.push(item)) =~= stored(buf, list).update(list.len() as int, item));
    } else {
        assert(stored(buf, list.push(item)) =~= stored(buf, list));
    }
}

/// A prefix of a stored list.
pub(crate) proof fn lemma_stored_take<T>(buf: Seq<T>, list: Seq<T>, n: int)
    requires
        0 <= n <= buf.len(),
        n <= list.len(),
    ensures
        stored(buf, list).take(n) == list.take(n),
{
    assert(stored(buf, list).take(n) =~= list.take(n));
}

} // verus!
