//! The bit-shuffle primitive, its repeat table and the piece transition.
use vstd::prelude::*;
use vstd::string::*;

verus! {

/// The state that drives piece generation: repeat selector, the 16-bit roll
/// index (two seed bytes), the rolling counter, and the last spawned id.
pub type PieceState = (u8, u16, u8, u8);

/// One application of the shuffle: the state moves right by one bit and the
/// new top bit is bit 1 xor bit 9 of the old state.
pub open spec fn shuffle(x: u16) -> u16 {
    ((((x << 8u16) ^ x) & 0x200u16) << 6u16) | (x >> 1u16)
}

/// The shuffle applied `n` times in a row.
pub open spec fn shuffle_times(x: u16, n: nat) -> u16
    decreases n,
{
    if n == 0 {
        x
    } else {
        shuffle(shuffle_times(x, (n - 1) as nat))
    }
}

/// How many shuffles one step takes under a repeat selector: selector 0
/// stands for 16, and three more are always added.
pub open spec fn repeat_count(selector: int) -> nat {
    if selector == 0 {
        19
    } else {
        (selector + 3) as nat
    }
}

/// A table of one shuffle of every 16-bit value.
pub open spec fn shuffle_table_wf(t: Seq<u16>) -> bool {
    &&& t.len() == 0x10000
    &&& forall|i: int| 0 <= i < 0x10000 ==> #[trigger] t[i] == shuffle(i as u16)
}

/// A table whose row `r` holds, for every 16-bit value, that value shuffled
/// `repeat_count(r)` times.
pub open spec fn repeat_table_wf(t: Seq<Vec<u16>>) -> bool {
    &&& t.len() == 16
    &&& forall|r: int| 0 <= r < 16 ==> (#[trigger] t[r])@.len() == 0x10000
    &&& forall|r: int, i: int|
        0 <= r < 16 && 0 <= i < 0x10000 ==> #[trigger] t[r]@[i] == shuffle_times(
            i as u16,
            repeat_count(r),
        )
}

/// The piece ids in table order: T, J, Z, O, S, L, I.
pub open spec fn orientation_id(i: int) -> u8 {
    if i == 0 {
        0x02
    } else if i == 1 {
        0x07
    } else if i == 2 {
        0x08
    } else if i == 3 {
        0x0A
    } else if i == 4 {
        0x0B
    } else if i == 5 {
        0x0E
    } else {
        0x12
    }
}

/// The pick of the plain roll: the roll's high byte plus the advanced
/// counter, modulo 8 (7 is no piece).
pub open spec fn first_pick(roll: u16, counter: u8) -> int {
    ((roll >> 8u16) as int + counter as int) % 8
}

/// Whether the plain pick is rerolled: it names no piece, or it repeats the
/// last spawned piece.
pub open spec fn needs_reroll(roll: u16, counter: u8, spawn_id: u8) -> bool {
    first_pick(roll, counter) == 7 || orientation_id(first_pick(roll, counter)) == spawn_id
}

/// The pick of the reroll: the low three bits of the new high byte plus the
/// last spawned id, modulo 7.
pub open spec fn reroll_pick(reroll: u16, spawn_id: u8) -> int {
    (((reroll >> 8u16) & 7u16) as int + spawn_id as int) % 7
}

/// One step of the generator. The roll index keeps its low bit cleared and
/// the counter its low three bits, the only bits that later steps read.
#[verifier::opaque]
pub open spec fn next_state(s: PieceState) -> PieceState {
    let counter = ((s.2 as int + 1) % 256) as u8;
    let roll = shuffle_times(s.1, repeat_count(s.0 as int));
    if needs_reroll(roll, counter, s.3) {
        let reroll = shuffle(roll);
        (s.0, reroll & 0xFFFEu16, (counter % 8) as u8, orientation_id(reroll_pick(reroll, s.3)))
    } else {
        (s.0, roll & 0xFFFEu16, (counter % 8) as u8, orientation_id(first_pick(roll, counter)))
    }
}

/// The state reached after `n` steps.
pub open spec fn iterate(s: PieceState, n: nat) -> PieceState
    decreases n,
{
    if n == 0 {
        s
    } else {
        next_state(iterate(s, (n - 1) as nat))
    }
}

/// The state a seed starts from: the selector is the counter byte's high
/// nibble, and no piece has spawned yet.
pub open spec fn seed_start(seed: u16, seed3: u8) -> PieceState {
    (seed3 >> 4u8, seed, seed3, 0)
}

/// The first `n` pieces spawned from a seed.
pub open spec fn piece_sequence(seed: u16, seed3: u8, n: nat) -> Seq<u8> {
    Seq::new(n, |i: int| iterate(seed_start(seed, seed3), (i + 1) as nat).3)
}

/// The letter of a piece id; an id that names no piece has none.
pub open spec fn piece_letter(id: u8) -> Seq<char> {
    if id == 0x02 {
        seq!['T']
    } else if id == 0x07 {
        seq!['J']
    } else if id == 0x08 {
        seq!['Z']
    } else if id == 0x0A {
        seq!['O']
    } else if id == 0x0B {
        seq!['S']
    } else if id == 0x0E {
        seq!['L']
    } else if id == 0x12 {
        seq!['I']
    } else {
        seq![]
    }
}

/// The letters of a sequence of piece ids, in order.
pub open spec fn pieces_text(ids: Seq<u8>) -> Seq<char>
    decreases ids.len(),
{
    if ids.len() == 0 {
        seq![]
    } else {
        pieces_text(ids.drop_last()) + piece_letter(ids.last())
    }
}

fn piece_name(id: u8) -> (r: &'static str)
    ensures
        r@ == piece_letter(id),
{
    if id == 0x02 {
        proof { reveal_strlit("T"); }
        "T"
    } else if id == 0x07 {
        proof { reveal_strlit("J"); }
        "J"
    } else if id == 0x08 {
        proof { reveal_strlit("Z"); }
        "Z"
    } else if id == 0x0A {
        proof { reveal_strlit("O"); }
        "O"
    } else if id == 0x0B {
        proof { reveal_strlit("S"); }
        "S"
    } else if id == 0x0E {
        proof { reveal_strlit("L"); }
        "L"
    } else if id == 0x12 {
        proof { reveal_strlit("I"); }
        "I"
    } else {
        proof { reveal_strlit(""); }
        ""
    }
}

/// Spells a sequence of piece ids as letters (T, J, Z, O, S, L, I).
pub fn get_string_from_sequence(sequence: &Box<[u8]>) -> (r: String)
    ensures
        r@ == pieces_text(sequence@),
{
    let mut text = String::new();
    let n: usize = sequence.len();
    for i in 0..n
        invariant
            n == sequence@.len(),
            text@ == pieces_text(sequence@.subrange(0, i as int)),
    {
        let letter = piece_name(sequence[i]);
        let ghost before = sequence@.subrange(0, i as int);
        let ghost after = sequence@.subrange(0, i + 1);
        assert(after.drop_last() =~= before);
        text.append(letter);
    }
    assert(sequence@.subrange(0, n as int) =~= sequence@);
    text
}

/// The shuffle maps zero to zero.
pub proof fn lemma_shuffle_zero()
    ensures
        shuffle(0) == 0,
{
    assert(((((0u16 << 8u16) ^ 0u16) & 0x200u16) << 6u16) | (0u16 >> 1u16) == 0u16) by (bit_vector);
}

/// Generation is restartable: the pieces of a seed depend on the seed alone,
/// and a shorter run is the start of a longer one.
pub proof fn lemma_sequence_restartable(seed: u16, seed3: u8, n: nat, m: nat)
    requires
        n <= m,
    ensures
        piece_sequence(seed, seed3, m).subrange(0, n as int) == piece_sequence(seed, seed3, n),
{
    assert(piece_sequence(seed, seed3, m).subrange(0, n as int) =~= piece_sequence(
        seed,
        seed3,
        n,
    ));
}

/// A piece repeats the one spawned before it only through the reroll: when the
/// plain pick would repeat it, the reroll decides the piece and the new roll.
pub proof fn lemma_repeat_only_by_reroll(s: PieceState)
    ensures
        ({
            let counter = ((s.2 as int + 1) % 256) as u8;
            let roll = shuffle_times(s.1, repeat_count(s.0 as int));
            &&& next_state(s).3 == s.3 ==> needs_reroll(roll, counter, s.3)
            &&& orientation_id(first_pick(roll, counter)) == s.3 ==> next_state(s) == (
                s.0,
                shuffle(roll) & 0xFFFEu16,
                (counter % 8) as u8,
                orientation_id(reroll_pick(shuffle(roll), s.3)),
            )
        }),
{
    reveal(next_state);
}

/// The shuffle of the game, on a 16-bit state.
pub fn shuffle_rng(rng: u16) -> (r: u16)
    ensures
        r == shuffle(rng),
{
    (((rng << 8) ^ rng) & 0x200) << 6 | rng >> 1
}

/// Builds the table of one shuffle of every 16-bit value, and the table of
/// repeated shuffles for each of the 16 repeat selectors.
pub fn get_pre_shuffle() -> (r: (Vec<u16>, Vec<Vec<u16>>))
    ensures
        shuffle_table_wf(r.0@),
        repeat_table_wf(r.1@),
{
    let mut shuffled: Vec<u16> = Vec::new();
    for i in 0..0x10000usize
        invariant
            shuffled@.len() == i,
            forall|j: int| 0 <= j < i ==> #[trigger] shuffled@[j] == shuffle(j as u16),
    {
        shuffled.push(shuffle_rng(i as u16));
    }
    let mut by_repeats: Vec<Vec<u16>> = Vec::new();
    for index in 0..0x10usize
        invariant
            by_repeats@.len() == index,
            forall|r: int| 0 <= r < index ==> (#[trigger] by_repeats@[r])@.len() == 0x10000,
            forall|r: int, i: int|
                0 <= r < index && 0 <= i < 0x10000 ==> #[trigger] by_repeats@[r]@[i]
                    == shuffle_times(i as u16, repeat_count(r)),
    {
        let mut repeats: usize = 0x10;
        if index != 0 {
            repeats = index;
        }
        repeats += 3;
        let mut row: Vec<u16> = Vec::new();
        for i in 0..0x10000usize
            invariant
                row@.len() == i,
                repeats == repeat_count(index as int),
                forall|j: int|
                    0 <= j < i ==> #[trigger] row@[j] == shuffle_times(
                        j as u16,
                        repeat_count(index as int),
                    ),
        {
            let mut s: u16 = i as u16;
            for k in 0..repeats
                invariant
                    s == shuffle_times(i as u16, k as nat),
            {
                s = shuffle_rng(s);
            }
            row.push(s);
        }
        by_repeats.push(row);
    }
    (shuffled, by_repeats)
}

fn orientation_at(i: usize) -> (r: u8)
    requires
        i < 7,
    ensures
        r == orientation_id(i as int),
{
    if i == 0 {
        0x02
    } else if i == 1 {
        0x07
    } else if i == 2 {
        0x08
    } else if i == 3 {
        0x0A
    } else if i == 4 {
        0x0B
    } else if i == 5 {
        0x0E
    } else {
        0x12
    }
}

/// Advances the state `(repeat_nybble, seed, seed3, spawn_id)` by one step
/// and returns the new state, whose last field is the piece just spawned.
pub fn get_next_piece(
    repeat_nybble: u8,
    seed: u16,
    seed3: u8,
    spawn_id: u8,
    shuffled: &Vec<u16>,
    by_repeats: &Vec<Vec<u16>>,
) -> (r: (u8, u16, u8, u8))
    requires
        repeat_nybble < 16,
        shuffle_table_wf(shuffled@),
        repeat_table_wf(by_repeats@),
    ensures
        r == next_state((repeat_nybble, seed, seed3, spawn_id)),
        r.0 == repeat_nybble,
{
    reveal(next_state);
    let advanced: u16 = (seed3 as u16 + 1) & 0xFF;
    assert(advanced < 256 && advanced == (seed3 as int + 1) % 256) by (bit_vector)
        requires
            advanced == ((seed3 as u16 + 1) as u16) & 0xFFu16,
    ;
    let s3: u8 = advanced as u8;
    let row = &by_repeats[repeat_nybble as usize];
    let mut roll: u16 = row[seed as usize];
    assert(roll >> 8u16 <= 0xFFu16) by (bit_vector);
    let mut result: usize = (((roll >> 8) + s3 as u16) & 0x7) as usize;
    assert(result as int == ((roll >> 8u16) as int + s3 as int) % 8) by (bit_vector)
        requires
            result == ((((roll >> 8u16) + s3 as u16) as u16) & 7u16) as usize,
    ;
    if result == 7 || orientation_at(result) == spawn_id {
        roll = shuffled[roll as usize];
        assert((roll >> 8u16) & 7u16 <= 7u16) by (bit_vector);
        result = ((((roll >> 8) & 7) + spawn_id as u16) % 7) as usize;
    }
    let new_id = orientation_at(result);
    let counter: u8 = s3 & 0x7;
    assert(counter == s3 % 8) by (bit_vector)
        requires
            counter == s3 & 7u8,
    ;
    (repeat_nybble, roll & 0xFFFE, counter, new_id)
}

/// Writes the first `length` pieces spawned from the seed
/// `(seed >> 8, seed & 0xFF, seed3)` into `sequence`.
pub fn crunch_seed(
    seed: u16,
    seed3: u8,
    shuffled: &Vec<u16>,
    by_repeats: &Vec<Vec<u16>>,
    sequence: &mut Box<[u8]>,
    length: i32,
)
    requires
        shuffle_table_wf(shuffled@),
        repeat_table_wf(by_repeats@),
        0 <= length <= old(sequence)@.len(),
    ensures
        final(sequence)@.len() == old(sequence)@.len(),
        final(sequence)@.subrange(0, length as int) == piece_sequence(seed, seed3, length as nat),
        final(sequence)@.subrange(length as int, old(sequence)@.len() as int)
            == old(sequence)@.subrange(length as int, old(sequence)@.len() as int),
{
    let repeat_nybble: u8 = seed3 >> 4;
    assert(repeat_nybble < 16) by (bit_vector)
        requires
            repeat_nybble == seed3 >> 4u8,
    ;
    let mut spawn_id: u8 = 0;
    let mut s: u16 = seed;
    let mut s3: u8 = seed3;
    let ghost start = seed_start(seed, seed3);
    let ghost old_seq = sequence@;
    let n: usize = length as usize;
    for index in 0..n
        invariant
            n == length,
            n <= old_seq.len(),
            repeat_nybble < 16,
            repeat_nybble == start.0,
            start == seed_start(seed, seed3),
            shuffle_table_wf(shuffled@),
            repeat_table_wf(by_repeats@),
            (repeat_nybble, s, s3, spawn_id) == iterate(start, index as nat),
            sequence@.len() == old_seq.len(),
            forall|j: int|
                0 <= j < index ==> #[trigger] sequence@[j] == iterate(start, (j + 1) as nat).3,
            forall|j: int| index <= j < old_seq.len() ==> #[trigger] sequence@[j] == old_seq[j],
    {
        let next = get_next_piece(repeat_nybble, s, s3, spawn_id, shuffled, by_repeats);
        s = next.1;
        s3 = next.2;
        spawn_id = next.3;
        sequence[index] = spawn_id;
    }
    assert(sequence@.subrange(0, length as int) =~= piece_sequence(seed, seed3, length as nat));
    assert(sequence@.subrange(length as int, old_seq.len() as int) =~= old_seq.subrange(
        length as int,
        old_seq.len() as int,
    ));
}

} // verus!
