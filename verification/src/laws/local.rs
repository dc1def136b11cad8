//! What is read depends on no byte behind it: a value is read from the bytes
//! that it takes, and is read as well when other bytes follow them.

use vstd::prelude::*;

use crate::entries::{with_member, Members};
use crate::error::NbtError;
use crate::format::{
    after, decode_byte_array, decode_count, decode_elements, decode_int_array, decode_ints,
    decode_long_array, decode_longs, decode_members, decode_payload, decode_tag, decode_text,
    lemma_after_after, lemma_element_step, lemma_member_step, lemma_tag_step,
};
use crate::laws::joined::{
    lemma_after_taken, lemma_take_of_taken, lemma_taken_starts, lemma_taken_twice, taken_then,
};
use crate::tag::TagView;
use crate::wire::{i32_at, i64_at};

verus! {

/// A text is read from the bytes that it takes, whatever follows them.
pub proof fn lemma_text_local(b: Seq<u8>, rest: Seq<u8>)
    ensures
        match decode_text(b) {
            Ok((s, k)) => k <= b.len() && decode_text(taken_then(b, k, rest)) == decode_text(b),
            Err(_) => true,
        },
{
    match decode_text(b) {
        Ok((s, k)) => {
            lemma_taken_starts(b, k, rest, 0);
            lemma_taken_starts(b, k, rest, 1);
            lemma_take_of_taken(b, k, rest, 2, k as int);
        },
        Err(_) => {},
    }
}

/// A count is read from its four bytes, whatever follows them.
proof fn lemma_count_local(b: Seq<u8>, k: nat, rest: Seq<u8>)
    requires
        4 <= k <= b.len(),
    ensures
        decode_count(taken_then(b, k, rest)) == decode_count(b),
{
    lemma_taken_starts(b, k, rest, 0);
    lemma_taken_starts(b, k, rest, 1);
    lemma_taken_starts(b, k, rest, 2);
    lemma_taken_starts(b, k, rest, 3);
}

/// Behind a count, the bytes that were taken and followed by others are the
/// bytes behind the count that were taken and followed by the others.
proof fn lemma_behind_count(b: Seq<u8>, n: nat, rest: Seq<u8>)
    requires
        4 + n <= b.len(),
    ensures
        after(taken_then(b, 4 + n, rest), 4) == taken_then(after(b, 4), n, rest),
{
    lemma_taken_twice(b, 4, n, rest);
    lemma_after_taken(b, 4, taken_then(after(b, 4), n, rest));
}

/// Ints are read from the bytes that they take, whatever follows them.
proof fn lemma_ints_local(b: Seq<u8>, n: nat, rest: Seq<u8>)
    requires
        4 * n <= b.len(),
    ensures
        decode_ints(taken_then(b, 4 * n, rest), n) == decode_ints(b, n),
{
    let c = taken_then(b, 4 * n, rest);
    assert forall|i: int| 0 <= i < n implies i32_at(#[trigger] c.skip(4 * i)) == i32_at(
        b.skip(4 * i),
    ) by {
        lemma_taken_starts(b, 4 * n, rest, 4 * i);
        lemma_taken_starts(b, 4 * n, rest, 4 * i + 1);
        lemma_taken_starts(b, 4 * n, rest, 4 * i + 2);
        lemma_taken_starts(b, 4 * n, rest, 4 * i + 3);
    }
    assert(Seq::new(n, |i: int| i32_at(c.skip(4 * i))) =~= Seq::new(
        n,
        |i: int| i32_at(b.skip(4 * i)),
    ));
}

/// Longs are read from the bytes that they take, whatever follows them.
proof fn lemma_longs_local(b: Seq<u8>, n: nat, rest: Seq<u8>)
    requires
        8 * n <= b.len(),
    ensures
        decode_longs(taken_then(b, 8 * n, rest), n) == decode_longs(b, n),
{
    let c = taken_then(b, 8 * n, rest);
    assert forall|i: int| 0 <= i < n implies i64_at(#[trigger] c.skip(8 * i)) == i64_at(
        b.skip(8 * i),
    ) by {
        let x = c.skip(8 * i);
        let y = b.skip(8 * i);
        assert forall|j: int| 0 <= j < 8 implies x[j] == y[j] by {
            lemma_taken_starts(b, 8 * n, rest, 8 * i + j);
        }
        assert(x.skip(4)[0] == x[4] && x.skip(4)[1] == x[5] && x.skip(4)[2] == x[6] && x.skip(
            4,
        )[3] == x[7]);
        assert(y.skip(4)[0] == y[4] && y.skip(4)[1] == y[5] && y.skip(4)[2] == y[6] && y.skip(
            4,
        )[3] == y[7]);
    }
    assert(Seq::new(n, |i: int| i64_at(c.skip(8 * i))) =~= Seq::new(
        n,
        |i: int| i64_at(b.skip(8 * i)),
    ));
}

/// A fixed-width number is read from the bytes that it takes, whatever
/// follows them.
proof fn lemma_number_local(id: u8, name: Option<Seq<char>>, b: Seq<u8>, rest: Seq<u8>)
    requires
        1 <= id <= 6,
    ensures
        match decode_payload(id, name, b) {
            Ok((t, k)) => k <= b.len() && decode_payload(id, name, taken_then(b, k, rest))
                == decode_payload(id, name, b),
            Err(_) => true,
        },
{
    match decode_payload(id, name, b) {
        Ok((t, k)) => {
            let c = taken_then(b, k, rest);
            assert forall|i: int| 0 <= i < k implies c[i] == b[i] by {
                lemma_taken_starts(b, k, rest, i);
            }
            if k == 8 {
                assert(c.skip(4)[0] == c[4] && c.skip(4)[1] == c[5] && c.skip(4)[2] == c[6]
                    && c.skip(4)[3] == c[7]);
                assert(b.skip(4)[0] == b[4] && b.skip(4)[1] == b[5] && b.skip(4)[2] == b[6]
                    && b.skip(4)[3] == b[7]);
            }
        },
        Err(_) => {},
    }
}

/// A byte array is read from the bytes that it takes, whatever follows them.
proof fn lemma_byte_array_local(b: Seq<u8>, rest: Seq<u8>)
    ensures
        match decode_byte_array(b) {
            Ok((v, k)) => k <= b.len() && decode_byte_array(taken_then(b, k, rest))
                == decode_byte_array(b),
            Err(_) => true,
        },
{
    match decode_byte_array(b) {
        Ok((v, k)) => {
            let n = (k - 4) as nat;
            lemma_count_local(b, k, rest);
            lemma_behind_count(b, n, rest);
            lemma_take_of_taken(after(b, 4), n, rest, 0, n as int);
        },
        Err(_) => {},
    }
}

/// An int array is read from the bytes that it takes, whatever follows them.
proof fn lemma_int_array_local(b: Seq<u8>, rest: Seq<u8>)
    ensures
        match decode_int_array(b) {
            Ok((v, k)) => k <= b.len() && decode_int_array(taken_then(b, k, rest))
                == decode_int_array(b),
            Err(_) => true,
        },
{
    match decode_int_array(b) {
        Ok((v, k)) => {
            let n = v.len();
            lemma_count_local(b, k, rest);
            lemma_behind_count(b, 4 * n, rest);
            lemma_ints_local(after(b, 4), n, rest);
        },
        Err(_) => {},
    }
}

/// A long array is read from the bytes that it takes, whatever follows them.
proof fn lemma_long_array_local(b: Seq<u8>, rest: Seq<u8>)
    ensures
        match decode_long_array(b) {
            Ok((v, k)) => k <= b.len() && decode_long_array(taken_then(b, k, rest))
                == decode_long_array(b),
            Err(_) => true,
        },
{
    match decode_long_array(b) {
        Ok((v, k)) => {
            let n = v.len();
            lemma_count_local(b, k, rest);
            lemma_behind_count(b, 8 * n, rest);
            lemma_longs_local(after(b, 4), n, rest);
        },
        Err(_) => {},
    }
}

/// A payload is read from the bytes that it takes, whatever follows them.
pub proof fn lemma_payload_local(id: u8, name: Option<Seq<char>>, b: Seq<u8>, rest: Seq<u8>)
    ensures
        match decode_payload(id, name, b) {
            Ok((t, k)) => k <= b.len() && decode_payload(id, name, taken_then(b, k, rest))
                == decode_payload(id, name, b),
            Err(_) => true,
        },
    decreases b.len(), 2nat,
{
    if 1 <= id <= 6 {
        lemma_number_local(id, name, b, rest);
    } else if id == 7 {
        lemma_byte_array_local(b, rest);
    } else if id == 8 {
        lemma_text_local(b, rest);
    } else if id == 9 {
        lemma_list_local(name, b, rest);
    } else if id == 10 {
        lemma_compound_local(name, b, rest);
    } else if id == 11 {
        lemma_int_array_local(b, rest);
    } else if id == 12 {
        lemma_long_array_local(b, rest);
    }
}

/// A list is read from the bytes that it takes, whatever follows them.
proof fn lemma_list_local(name: Option<Seq<char>>, b: Seq<u8>, rest: Seq<u8>)
    ensures
        match decode_payload(9, name, b) {
            Ok((t, k)) => k <= b.len() && decode_payload(9, name, taken_then(b, k, rest))
                == decode_payload(9, name, b),
            Err(_) => true,
        },
    decreases b.len(), 1nat,
{
    match decode_payload(9, name, b) {
        Ok((t, k)) => {
            let b1 = after(b, 1);
            let n = decode_count(b1)->Ok_0.0;
            let body = after(b1, 4);
            let k2 = decode_elements(b[0], n, Seq::empty(), body)->Ok_0.1;
            lemma_elements_local(b[0], n, Seq::empty(), body, rest);
            let behind = taken_then(body, k2, rest);
            let c1 = taken_then(b1, 4 + k2, rest);
            lemma_taken_twice(b, 1, 4 + k2, rest);
            lemma_taken_starts(b, 1, c1, 0);
            lemma_after_taken(b, 1, c1);
            lemma_count_local(b1, 4 + k2, rest);
            lemma_behind_count(b1, k2, rest);
        },
        Err(_) => {},
    }
}

/// A compound is read from the bytes that it takes, whatever follows them.
proof fn lemma_compound_local(name: Option<Seq<char>>, b: Seq<u8>, rest: Seq<u8>)
    ensures
        match decode_payload(10, name, b) {
            Ok((t, k)) => k <= b.len() && decode_payload(10, name, taken_then(b, k, rest))
                == decode_payload(10, name, b),
            Err(_) => true,
        },
    decreases b.len(), 1nat,
{
    lemma_members_local(Seq::empty(), b, rest);
}

/// The elements of a list are read from the bytes that they take, whatever
/// follows them.
pub proof fn lemma_elements_local(id: u8, n: nat, done: Seq<TagView>, b: Seq<u8>, rest: Seq<u8>)
    ensures
        match decode_elements(id, n, done, b) {
            Ok((v, k)) => k <= b.len() && decode_elements(id, n, done, taken_then(b, k, rest))
                == decode_elements(id, n, done, b),
            Err(_) => true,
        },
    decreases b.len(), n + 3,
{
    if n > 0 {
        match decode_payload(id, None, b) {
            Ok((t, k1)) => {
                let on = after(b, k1);
                let more = done.push(t);
                lemma_element_step(id, n, done, b, t, k1, on);
                match decode_elements(id, (n - 1) as nat, more, on) {
                    Ok((v, k2)) => {
                        let behind = taken_then(on, k2, rest);
                        lemma_elements_local(id, (n - 1) as nat, more, on, rest);
                        lemma_payload_local(id, None, b, behind);
                        lemma_taken_twice(b, k1, k2, rest);
                        lemma_after_taken(b, k1, behind);
                        lemma_element_step(
                            id,
                            n,
                            done,
                            taken_then(b, k1 + k2, rest),
                            t,
                            k1,
                            behind,
                        );
                    },
                    Err(_) => {},
                }
            },
            Err(_) => {},
        }
    }
}

/// Behind the byte of its kind, a tag or a member is read from the bytes
/// that its name and its payload take, whatever follows them.
proof fn lemma_named_local(id: u8, b: Seq<u8>, rest: Seq<u8>)
    ensures
        match decode_text(b) {
            Ok((name, k1)) => match decode_payload(id, Some(name), after(b, k1)) {
                Ok((t, k2)) => {
                    let c = taken_then(b, k1 + k2, rest);
                    &&& k1 + k2 <= b.len()
                    &&& decode_text(c) == decode_text(b)
                    &&& decode_payload(id, Some(name), after(c, k1)) == Ok::<_, NbtError>((t, k2))
                    &&& after(after(c, k1), k2) == rest
                },
                Err(_) => true,
            },
            Err(_) => true,
        },
    decreases b.len(), 3nat,
{
    match decode_text(b) {
        Ok((name, k1)) => {
            let on = after(b, k1);
            match decode_payload(id, Some(name), on) {
                Ok((t, k2)) => {
                    let behind = taken_then(on, k2, rest);
                    lemma_payload_local(id, Some(name), on, rest);
                    lemma_text_local(b, behind);
                    lemma_taken_twice(b, k1, k2, rest);
                    lemma_after_taken(b, k1, behind);
                    lemma_after_taken(on, k2, rest);
                },
                Err(_) => {},
            }
        },
        Err(_) => {},
    }
}

/// The members of a compound are read from the bytes that they take,
/// whatever follows them.
pub proof fn lemma_members_local(done: Members, b: Seq<u8>, rest: Seq<u8>)
    ensures
        match decode_members(done, b) {
            Ok((v, k)) => k <= b.len() && decode_members(done, taken_then(b, k, rest))
                == decode_members(done, b),
            Err(_) => true,
        },
    decreases b.len(), 0nat,
{
    if b.len() < 1 {
    } else if b[0] == 0 {
        lemma_taken_starts(b, 1, rest, 0);
    } else {
        let b1 = after(b, 1);
        match decode_text(b1) {
            Ok((key, k1)) => match decode_payload(b[0], Some(key), after(b1, k1)) {
                Ok((t, k2)) => {
                    let on = after(after(b1, k1), k2);
                    let stored = with_member(done, key, t);
                    lemma_member_step(done, b, key, k1, t, k2, on);
                    match decode_members(stored, on) {
                        Ok((v, k3)) => {
                            let behind = taken_then(on, k3, rest);
                            let c1 = taken_then(b1, k1 + k2, behind);
                            lemma_members_local(stored, on, rest);
                            lemma_named_local(b[0], b1, behind);
                            lemma_after_after(b1, k1, k2);
                            lemma_taken_twice(b1, k1 + k2, k3, rest);
                            lemma_taken_twice(b, 1, k1 + k2 + k3, rest);
                            lemma_taken_starts(b, 1, c1, 0);
                            lemma_after_taken(b, 1, c1);
                            lemma_member_step(
                                done,
                                taken_then(b, 1 + k1 + k2 + k3, rest),
                                key,
                                k1,
                                t,
                                k2,
                                behind,
                            );
                        },
                        Err(_) => {},
                    }
                },
                Err(_) => {},
            },
            Err(_) => {},
        }
    }
}

/// A tag is read from the bytes that it takes, and from no more, whatever
/// follows them.
pub proof fn lemma_tag_local(b: Seq<u8>, rest: Seq<u8>)
    ensures
        match decode_tag(b) {
            Ok((t, k)) => k <= b.len() && decode_tag(taken_then(b, k, rest)) == decode_tag(b),
            Err(_) => true,
        },
{
    if b.len() < 1 {
    } else if b[0] == 0 {
        lemma_taken_starts(b, 1, rest, 0);
    } else {
        let b1 = after(b, 1);
        match decode_text(b1) {
            Ok((name, k1)) => {
                lemma_tag_step(b, name, k1);
                match decode_payload(b[0], Some(name), after(b1, k1)) {
                    Ok((t, k2)) => {
                        let c1 = taken_then(b1, k1 + k2, rest);
                        lemma_named_local(b[0], b1, rest);
                        lemma_taken_twice(b, 1, k1 + k2, rest);
                        lemma_taken_starts(b, 1, c1, 0);
                        lemma_after_taken(b, 1, c1);
                        lemma_tag_step(taken_then(b, 1 + k1 + k2, rest), name, k1);
                    },
                    Err(_) => {},
                }
            },
            Err(_) => {},
        }
    }
}

} // verus!
