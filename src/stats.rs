//! Counting pieces in generated sequences, and keeping the seeds with the
//! most or fewest of a piece.
use vstd::prelude::*;

verus! {

/// How many times `id` occurs in `s`.
pub open spec fn occurrences(s: Seq<u8>, id: u8) -> nat
    decreases s.len(),
{
    if s.len() == 0 {
        0
    } else {
        occurrences(s.drop_last(), id) + if s.last() == id {
            1nat
        } else {
            0nat
        }
    }
}

/// A seed the game can never produce: its first byte and its second byte
/// without the low bit are both zero.
pub open spec fn invalid_seed(seed1: u8, seed2: u8) -> bool {
    seed1 == 0 && seed2 & 0xFEu8 == 0
}

/// A seed that behaves as the one with bit 3 of the third byte and the low
/// bit of the second byte cleared.
pub open spec fn duplicate_seed(seed2: u8, seed3: u8) -> bool {
    seed3 & 0x08u8 == 0x08u8 || seed2 & 0x01u8 == 0x01u8
}

/// Whether the game can produce the seed.
pub fn is_valid_seed(seed1: u8, seed2: u8) -> (r: bool)
    ensures
        r == !invalid_seed(seed1, seed2),
{
    !(seed1 == 0 && seed2 & 0xFE == 0)
}

/// Whether the seed behaves as another with some unread bits cleared.
pub fn is_duplicate_seed(seed2: u8, seed3: u8) -> (r: bool)
    ensures
        r == duplicate_seed(seed2, seed3),
{
    seed3 & 0x08 == 0x08 || seed2 & 0x01 == 0x01
}

/// Packs three seed bytes as one number, first byte highest.
pub fn i32_from_bytes(x: u8, y: u8, z: u8) -> (r: i32)
    ensures
        r == x as int * 0x10000 + y as int * 0x100 + z as int,
{
    let r: u32 = (x as u32) << 16 | (y as u32) << 8 | z as u32;
    assert(r == x as u32 * 0x10000 + y as u32 * 0x100 + z as u32 && r < 0x100_0000) by (bit_vector)
        requires
            r == (x as u32) << 16u32 | (y as u32) << 8u32 | z as u32,
    ;
    r as i32
}

/// The larger count with its seed; on a tie the current one stays.
pub fn check_if_most(count: u16, seed: i32, current_most: u16, current_seed: i32) -> (r: (u16, i32))
    ensures
        r == (if count > current_most {
            (count, seed)
        } else {
            (current_most, current_seed)
        }),
{
    if count > current_most {
        return (count, seed);
    }
    (current_most, current_seed)
}

/// The smaller count with its seed; on a tie the current one stays.
pub fn check_if_least(count: u16, seed: i32, current_least: u16, current_seed: i32) -> (r: (u16, i32))
    ensures
        r == (if count < current_least {
            (count, seed)
        } else {
            (current_least, current_seed)
        }),
{
    if count < current_least {
        return (count, seed);
    }
    (current_least, current_seed)
}

/// How many times the piece `id` occurs in a sequence.
pub fn count_piece(sequence: &Box<[u8]>, id: u8) -> (r: usize)
    ensures
        r == occurrences(sequence@, id),
{
    let n: usize = sequence.len();
    let mut count: usize = 0;
    for i in 0..n
        invariant
            n == sequence@.len(),
            count == occurrences(sequence@.subrange(0, i as int), id),
            count <= i,
    {
        proof {
            assert(sequence@.subrange(0, i + 1).drop_last() =~= sequence@.subrange(0, i as int));
        }
        if sequence[i] == id {
            count += 1;
        }
    }
    proof {
        assert(sequence@.subrange(0, n as int) =~= sequence@);
    }
    count
}

} // verus!
