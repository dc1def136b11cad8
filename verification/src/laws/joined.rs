//! Sequences joined and cut: the few facts that the laws of the format rest
//! on, each proved by itself.

use vstd::prelude::*;

use crate::format::after;

verus! {

/// Joining is associative.
pub proof fn lemma_joined3<T>(x: Seq<T>, y: Seq<T>, z: Seq<T>)
    ensures
        x + y + z == x + (y + z),
{
    assert(x + y + z =~= x + (y + z));
}

/// Joining with nothing changes nothing.
pub proof fn lemma_joined_empty<T>(x: Seq<T>)
    ensures
        x + Seq::<T>::empty() == x,
        Seq::<T>::empty() + x == x,
{
    assert(x + Seq::<T>::empty() =~= x);
    assert(Seq::<T>::empty() + x =~= x);
}

/// What was gathered, with the first of what is left, and then the others,
/// is what was gathered and then all that is left.
pub proof fn lemma_first_moved<T>(done: Seq<T>, left: Seq<T>)
    requires
        left.len() > 0,
    ensures
        done.push(left[0]) + left.skip(1) == done + left,
{
    assert(done.push(left[0]) + left.skip(1) =~= done + left);
}

/// Behind the first of two joined sequences comes the second.
pub proof fn lemma_after_joined(x: Seq<u8>, y: Seq<u8>)
    ensures
        (x + y).len() == x.len() + y.len(),
        after(x + y, x.len()) == y,
{
    assert(after(x + y, x.len()) =~= y);
}

/// A byte and what follows it.
pub proof fn lemma_head(x: u8, y: Seq<u8>)
    ensures
        (seq![x] + y).len() == 1 + y.len(),
        (seq![x] + y)[0] == x,
        after(seq![x] + y, 1) == y,
{
    assert(after(seq![x] + y, 1) =~= y);
}

/// The second of three joined sequences stands between the lengths of the
/// first and of the first two.
pub proof fn lemma_middle(x: Seq<u8>, y: Seq<u8>, z: Seq<u8>)
    ensures
        (x + (y + z)).subrange(x.len() as int, (x.len() + y.len()) as int) == y,
{
    assert((x + (y + z)).subrange(x.len() as int, (x.len() + y.len()) as int) =~= y);
}

/// The first `k` bytes of two joined sequences are of the first alone, or
/// all of the first and the first of the second.
pub proof fn lemma_take_of_joined(x: Seq<u8>, y: Seq<u8>, k: int)
    requires
        0 <= k <= x.len() + y.len(),
    ensures
        k <= x.len() ==> (x + y).take(k) == x.take(k),
        k >= x.len() ==> (x + y).take(k) == x + y.take(k - x.len()),
        (x + y).take(k).len() == k,
{
    if k <= x.len() {
        assert((x + y).take(k) =~= x.take(k));
    }
    if k >= x.len() {
        assert((x + y).take(k) =~= x + y.take(k - x.len()));
    }
}

/// Nothing is behind all the bytes of a sequence, and a sequence is behind
/// none of its bytes.
pub proof fn lemma_after_ends(x: Seq<u8>)
    ensures
        after(x, 0) == x,
        after(x, x.len()) == Seq::<u8>::empty(),
{
    assert(after(x, 0) =~= x);
    assert(after(x, x.len()) =~= Seq::<u8>::empty());
}

/// The bytes that were taken, followed by other bytes.
pub open spec fn taken_then(b: Seq<u8>, k: nat, rest: Seq<u8>) -> Seq<u8> {
    b.take(k as int) + rest
}

/// Of bytes taken and followed by others, the first bytes are those of the
/// sequence that they were taken from.
pub proof fn lemma_taken_starts(b: Seq<u8>, k: nat, rest: Seq<u8>, i: int)
    requires
        0 <= i < k <= b.len(),
    ensures
        taken_then(b, k, rest)[i] == b[i],
        taken_then(b, k, rest).len() == k + rest.len(),
{
}

/// Behind the bytes that were taken come the others.
pub proof fn lemma_after_taken(b: Seq<u8>, k: nat, rest: Seq<u8>)
    requires
        k <= b.len(),
    ensures
        taken_then(b, k, rest).len() == k + rest.len(),
        after(taken_then(b, k, rest), k) == rest,
{
    assert(after(taken_then(b, k, rest), k) =~= rest);
}

/// Bytes taken in two steps, the second behind the first, are bytes taken at
/// once.
pub proof fn lemma_taken_twice(b: Seq<u8>, m: nat, k: nat, rest: Seq<u8>)
    requires
        m + k <= b.len(),
    ensures
        taken_then(b, m + k, rest) == taken_then(b, m, taken_then(after(b, m), k, rest)),
{
    assert(taken_then(b, m + k, rest) =~= taken_then(b, m, taken_then(after(b, m), k, rest)));
}

/// The first `n` of the bytes that were taken are the first `n` bytes.
pub proof fn lemma_take_of_taken(b: Seq<u8>, k: nat, rest: Seq<u8>, from: int, to: int)
    requires
        0 <= from <= to <= k <= b.len(),
    ensures
        taken_then(b, k, rest).subrange(from, to) == b.subrange(from, to),
{
    assert(taken_then(b, k, rest).subrange(from, to) =~= b.subrange(from, to));
}

} // verus!
