//! Identifiers that are unique among the connections of one process.

use vstd::prelude::*;

verus! {

/// The counter value that follows `uid`: one more, starting over at zero
/// after the highest.
pub open spec fn uid_after(uid: u32) -> u32 {
    if uid == u32::MAX {
        0
    } else {
        (uid + 1) as u32
    }
}

/// Hands out the identifier that `next` holds and moves `next` on.
pub fn get_next_uid(next: &mut u32) -> (uid: u32)
    ensures
        uid == *old(next),
        *final(next) == uid_after(*old(next)),
{
    let uid: u32 = *next;
    *next = if uid == u32::MAX {
        0
    } else {
        uid + 1
    };
    uid
}

} // verus!
