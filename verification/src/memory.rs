//! Accounting for allocated memory. How much room an allocator gave is only
//! known to lie within limits; the number of bytes follows from the rooms.

use std::collections::HashMap;

use vstd::layout::size_of;
use vstd::prelude::*;

verus! {

/// A number of bytes, or the largest word if it does not fit.
pub open spec fn capped(n: int) -> int {
    if n <= usize::MAX {
        n
    } else {
        usize::MAX as int
    }
}

/// A vector of `len` elements of `size` bytes each can have room for `room`
/// of them.
pub open spec fn is_room(room: usize, len: nat, size: nat) -> bool {
    &&& len <= room
    &&& room * size <= isize::MAX
}

/// One vector for each room, with `size` bytes for an element and `extra`
/// bytes for the vector.
pub open spec fn rooms_bytes(rooms: Seq<usize>, size: nat, extra: nat) -> int
    decreases rooms.len(),
{
    if rooms.len() == 0 {
        0
    } else {
        rooms_bytes(rooms.drop_last(), size, extra) + (rooms.last() * size + extra)
    }
}

/// A product, or the largest word if it does not fit.
pub fn times(a: usize, b: usize) -> (r: usize)
    ensures
        r == capped(a * b),
{
    match a.checked_mul(b) {
        Some(v) => v,
        None => usize::MAX,
    }
}

/// A sum, or the largest word if it does not fit.
pub fn plus(a: usize, b: usize) -> (r: usize)
    ensures
        r == capped(a + b),
{
    match a.checked_add(b) {
        Some(v) => v,
        None => usize::MAX,
    }
}

/// The bytes of one vector for each room.
pub fn sum_rooms(rooms: &Vec<usize>, size: usize, extra: usize) -> (r: usize)
    ensures
        r == capped(rooms_bytes(rooms@, size as nat, extra as nat)),
        rooms_bytes(rooms@, size as nat, extra as nat) >= 0,
{
    let mut acc: usize = 0;
    let mut i: usize = 0;
    while i < rooms.len()
        invariant
            i <= rooms@.len(),
            acc == capped(rooms_bytes(rooms@.take(i as int), size as nat, extra as nat)),
            rooms_bytes(rooms@.take(i as int), size as nat, extra as nat) >= 0,
        decreases rooms@.len() - i,
    {
        assert(rooms@.take(i + 1).drop_last() =~= rooms@.take(i as int));
        assert(rooms@[i as int] * size >= 0) by (nonlinear_arith)
            requires
                rooms@[i as int] >= 0,
                size >= 0,
        ;
        acc = plus(acc, plus(times(rooms[i], size), extra));
        i += 1;
    }
    assert(rooms@.take(i as int) =~= rooms@);
    acc
}

/// `Vec::capacity`: room for at least the elements that are there, and for no
/// more than `isize::MAX` bytes of them, which is the most that a vector ever
/// allocates. How much room an allocator gave between the two is not stated.
#[verifier::external_body]
pub(crate) fn allocated<T>(v: &Vec<T>) -> (r: usize)
    ensures
        is_room(r, v@.len(), size_of::<T>()),
{
    v.capacity()
}

/// `HashMap::capacity`: room for at least the pairs that are there, and for no
/// more than a word can count in bytes, since a map panics before it allocates
/// more. How much room an allocator gave between the two is not stated.
#[verifier::external_body]
pub(crate) fn allocated_map<V>(m: &HashMap<u64, V>) -> (r: usize)
    ensures
        r >= m@.dom().len(),
        r * (8 + size_of::<V>()) <= usize::MAX,
{
    m.capacity()
}

} // verus!
