//! The sequence numbers of media packets, which wrap around.

use crate::protocol::MAX_MEDIA_SEQUENCE;
use vstd::prelude::*;

verus! {

/// The sequence number after `sequence`.
pub open spec fn following(sequence: u64) -> u64 {
    if sequence == MAX_MEDIA_SEQUENCE {
        0
    } else {
        (sequence + 1) as u64
    }
}

/// The sequence number `offset` places after `sequence`.
pub open spec fn following_by(sequence: u64, offset: nat) -> u64
    decreases offset,
{
    if offset == 0 {
        sequence
    } else {
        following(following_by(sequence, (offset - 1) as nat))
    }
}

pub fn next_sequence(sequence: u64) -> (next: u64)
    requires
        sequence < u64::MAX,
    ensures
        next == following(sequence),
{
    if sequence == MAX_MEDIA_SEQUENCE {
        0
    } else {
        sequence + 1
    }
}

pub fn sequence_after(sequence: u64, offset: usize) -> (after: u64)
    requires
        sequence <= MAX_MEDIA_SEQUENCE,
    ensures
        after == following_by(sequence, offset as nat),
        after <= MAX_MEDIA_SEQUENCE,
{
    let mut after: u64 = sequence;
    for i in 0..offset
        invariant
            after == following_by(sequence, i as nat),
            after <= MAX_MEDIA_SEQUENCE,
    {
        after = next_sequence(after);
    }
    after
}

/// Counting on from a media sequence number is addition modulo the number of media sequence
/// numbers.
pub proof fn law_sequence_wraps(sequence: u64, offset: nat)
    requires
        sequence <= MAX_MEDIA_SEQUENCE,
    ensures
        following_by(sequence, offset) == (sequence + offset) % (MAX_MEDIA_SEQUENCE + 1),
    decreases offset,
{
    if offset > 0 {
        law_sequence_wraps(sequence, (offset - 1) as nat);
        let before = sequence + offset - 1;
        let count = MAX_MEDIA_SEQUENCE + 1;
        if before % count == count - 1 {
            assert((before + 1) % count == 0) by (nonlinear_arith)
                requires
                    before % count == count - 1,
                    count == 67_108_863,
            ;
        } else {
            assert((before + 1) % count == before % count + 1) by (nonlinear_arith)
                requires
                    before % count != count - 1,
                    count == 67_108_863,
            ;
        }
    }
}

} // verus!
