use vstd::prelude::*;

use crate::brick::{Brick, BrickView, BRICK_VOLUME};
use crate::voxel::{empty_voxel, Voxel};

verus! {

/// Words in one brick record: two header words, then one distance per cell.
pub const RECORD_WORDS: usize = 262146;

/// Words before the first record: the root node and the record count.
pub const HEADER_WORDS: usize = 2;

/// Bit pattern of the 32-bit float 0.0: the distance stored for a solid cell.
pub const SOLID_DISTANCE: u32 = 0;

/// Bit pattern of the 32-bit float 1.0: the distance stored for an empty
/// cell. No other cell's centre lies closer than one cell to its centre, so
/// this never overstates the distance to a surface.
pub const EMPTY_DISTANCE: u32 = 0x3f80_0000;

/// Bit pattern of the 32-bit float 65536.0: the distance that the root of an
/// empty scene reports, farther than any ray travels.
pub const BACKGROUND_DISTANCE: u32 = 0x4780_0000;

/// A node word: bit 0 tells a child pointer (1) from a leaf distance (0);
/// the other bits hold the child index or the distance's bit pattern, shifted
/// left by one.
pub open spec fn node_word(child: Option<u32>, distance_bits: u32) -> u32 {
    match child {
        Some(c) => (c << 1u32) | 1u32,
        None => distance_bits << 1u32,
    }
}

/// The root node of a buffer holding `n` records: a leaf at the background
/// distance when there are none, else a pointer to the record list at word 1.
pub open spec fn root_word(n: nat) -> u32 {
    if n == 0 {
        node_word(None, BACKGROUND_DISTANCE)
    } else {
        node_word(Some(1u32), 0)
    }
}

/// The distance stored for a voxel.
pub open spec fn distance_word(v: Voxel) -> u32 {
    if v == empty_voxel() {
        EMPTY_DISTANCE
    } else {
        SOLID_DISTANCE
    }
}

/// Word `t` of the record of brick `b`: its position, then its distances.
pub open spec fn record_word(b: BrickView, t: int) -> u32 {
    if t == 0 {
        (b.pos.0 as int + b.pos.1 as int * 65536) as u32
    } else if t == 1 {
        b.pos.2 as u32
    } else {
        distance_word(b.cells[t - 2])
    }
}

/// The record of brick `b`.
pub open spec fn brick_record(b: BrickView) -> Seq<u32> {
    Seq::new(RECORD_WORDS as nat, |t: int| record_word(b, t))
}

/// The record left where a brick was removed: no position, every cell empty.
pub open spec fn dead_record() -> Seq<u32> {
    Seq::new(
        RECORD_WORDS as nat,
        |t: int|
            if t < 2 {
                0u32
            } else {
                EMPTY_DISTANCE
            },
    )
}

/// The root of an empty buffer is a leaf, the root of a filled one a pointer.
pub proof fn lemma_root_kind(n: nat)
    ensures
        root_word(n) & 1 == (if n == 0 {
            0u32
        } else {
            1u32
        }),
        n > 0 ==> root_word(n) >> 1u32 == 1,
{
    assert((0x4780_0000u32 << 1u32) == 0x8f00_0000u32) by (bit_vector);
    assert(((1u32 << 1u32) | 1u32) == 3u32) by (bit_vector);
    assert(0x8f00_0000u32 & 1 == 0) by (bit_vector);
    assert(3u32 & 1 == 1) by (bit_vector);
    assert(3u32 >> 1u32 == 1) by (bit_vector);
}

/// The node word for a child pointer or a leaf distance.
pub fn node_bits(child: Option<u32>, distance_bits: u32) -> (r: u32)
    ensures
        r == node_word(child, distance_bits),
{
    match child {
        Some(c) => (c << 1u32) | 1u32,
        None => distance_bits << 1u32,
    }
}

/// The root word for a buffer of `n` records.
pub fn root_bits(n: usize) -> (r: u32)
    ensures
        r == root_word(n as nat),
{
    if n == 0 {
        node_bits(None, BACKGROUND_DISTANCE)
    } else {
        node_bits(Some(1u32), 0)
    }
}

/// The record of brick `b`.
pub fn encode_brick(b: &Brick) -> (r: Vec<u32>)
    requires
        b.wf(),
    ensures
        r@ == brick_record(b@),
{
    let mut r: Vec<u32> = Vec::with_capacity(RECORD_WORDS);
    r.push(b.pos.0 as u32 + (b.pos.1 as u32) * 65536);
    r.push(b.pos.2 as u32);
    let empty = Voxel::empty();
    let mut i: usize = 0;
    while i < BRICK_VOLUME
        invariant
            b.wf(),
            i <= BRICK_VOLUME,
            empty == empty_voxel(),
            r@.len() == i + 2,
            forall|t: int| 0 <= t < i + 2 ==> r@[t] == record_word(b@, t),
        decreases BRICK_VOLUME - i,
    {
        let v = b.data[i];
        if v == empty {
            r.push(EMPTY_DISTANCE);
        } else {
            r.push(SOLID_DISTANCE);
        }
        i = i + 1;
    }
    assert(r@ =~= brick_record(b@));
    r
}

/// The record left where a brick was removed.
pub fn encode_dead() -> (r: Vec<u32>)
    ensures
        r@ == dead_record(),
{
    let mut r: Vec<u32> = Vec::with_capacity(RECORD_WORDS);
    let mut i: usize = 0;
    while i < RECORD_WORDS
        invariant
            i <= RECORD_WORDS,
            r@.len() == i,
            forall|t: int| 0 <= t < i ==> r@[t] == dead_record()[t],
        decreases RECORD_WORDS - i,
    {
        if i < 2 {
            r.push(0);
        } else {
            r.push(EMPTY_DISTANCE);
        }
        i = i + 1;
    }
    assert(r@ =~= dead_record());
    r
}

} // verus!
