//! Classifies seeds by the cycle of the state machine that their walk enters,
//! sharing each cycle found among all the seeds that reach it.
use std::collections::HashMap;
use vstd::arithmetic::div_mod::*;
use vstd::prelude::*;
use vstd::set_lib::*;
use crate::rng::{
    first_pick, get_next_piece, iterate, needs_reroll, next_state, repeat_count,
    repeat_table_wf, seed_start, shuffle, shuffle_table_wf, shuffle_times, PieceState,
};

verus! {

/// The key of a state in hash maps: its four fields side by side.
pub open spec fn state_key(s: PieceState) -> u64 {
    ((s.0 as u64) << 32u64) | ((s.1 as u64) << 16u64) | ((s.2 as u64) << 8u64) | (s.3 as u64)
}

/// A seed with the bits that no step reads cleared: the low bit of the
/// second byte and bit 3 of the third, packed as `seed1 seed2 seed3`.
pub open spec fn seed_key(seed1: u8, seed2: u8, seed3: u8) -> u32 {
    ((seed1 as u32) << 16u32) | (((seed2 & 0xFEu8) as u32) << 8u32) | ((seed3 & 0xF7u8) as u32)
}

/// The state a walk starts from for a seed key: its selector is the high
/// nibble of the third byte, its counter the low three bits.
pub open spec fn key_start(k: u32) -> PieceState {
    (((k & 0xF0u32) >> 4u32) as u8, ((k >> 8u32) & 0xFFFFu32) as u16, (k & 7u32) as u8, 0u8)
}

/// A nonempty sequence of states, each of which steps to the next, the last
/// back to the first.
pub open spec fn closed_cycle(c: Seq<PieceState>) -> bool {
    &&& c.len() > 0
    &&& forall|p: int| 0 <= p < c.len() ==> #[trigger] next_state(c[p]) == c[(p + 1) % (c.len() as int)]
}

/// What is known of one seed: after `steps_to_cycle` steps its walk is at
/// position `entry_index_in_loop` of the cycle whose first state is
/// `cycle_loop_id`.
#[derive(Clone, Copy)]
pub struct CycleRecord {
    pub steps_to_cycle: usize,
    pub cycle_loop_id: PieceState,
    pub entry_index_in_loop: usize,
}

/// The seeds explored so far, keyed by `seed_key`, and the cycles found.
/// Each cycle is listed in the order it is walked, from the state at which
/// it was closed; `loop_members` maps the key of each state on a cycle to
/// the cycle's index and the state's position in it.
pub struct SeedExplorer {
    pub known_seeds: HashMap<u32, CycleRecord>,
    pub known_loops: Vec<Vec<PieceState>>,
    pub loop_members: HashMap<u64, (usize, usize)>,
}

/// How a walk ended: it reached a state of a known cycle, or it came back
/// to one of its own states.
enum WalkEnd {
    Joined { steps: usize, loop_index: usize, position: usize },
    Closed { path: Vec<PieceState>, first: usize },
}

proof fn lemma_state_key_injective(a: PieceState, b: PieceState)
    ensures
        state_key(a) == state_key(b) ==> a == b,
        state_key(a) < 0x100_0000_0000,
{
    let (a0, a1, a2, a3) = a;
    let (b0, b1, b2, b3) = b;
    assert(((a0 as u64) << 32u64) | ((a1 as u64) << 16u64) | ((a2 as u64) << 8u64) | (a3 as u64)
        == ((b0 as u64) << 32u64) | ((b1 as u64) << 16u64) | ((b2 as u64) << 8u64) | (b3 as u64)
        ==> a0 == b0 && a1 == b1 && a2 == b2 && a3 == b3) by (bit_vector);
    assert(((a0 as u64) << 32u64) | ((a1 as u64) << 16u64) | ((a2 as u64) << 8u64) | (a3 as u64)
        < 0x100_0000_0000u64) by (bit_vector);
}

/// The keys below `n`.
spec fn keys_below(n: nat) -> Set<u64>
    decreases n,
{
    if n == 0 {
        Set::empty()
    } else {
        keys_below((n - 1) as nat).insert((n - 1) as u64)
    }
}

proof fn lemma_keys_below(n: nat)
    requires
        n <= 0x1_0000_0000_0000_0000,
    ensures
        keys_below(n).finite(),
        keys_below(n).len() == n,
        forall|k: u64| #[trigger] keys_below(n).contains(k) <==> k < n,
    decreases n,
{
    if n > 0 {
        lemma_keys_below((n - 1) as nat);
    }
}

/// A set of state keys has at most 2^40 members.
proof fn lemma_state_keys_bounded(keys: Set<u64>)
    requires
        forall|k: u64| #[trigger] keys.contains(k) ==> k < 0x100_0000_0000,
    ensures
        keys.finite(),
        keys.len() <= 0x100_0000_0000,
{
    lemma_keys_below(0x100_0000_0000);
    lemma_len_subset(keys, keys_below(0x100_0000_0000));
}

proof fn lemma_shuffle_times_ignores_low_bit(x: u16, n: nat)
    requires
        n >= 1,
    ensures
        shuffle_times(x, n) == shuffle_times(x & 0xFFFEu16, n),
    decreases n,
{
    if n == 1 {
        let y = x & 0xFFFEu16;
        assert(((((x << 8u16) ^ x) & 0x200u16) << 6u16) | (x >> 1u16) == ((((y << 8u16) ^ y)
            & 0x200u16) << 6u16) | (y >> 1u16)) by (bit_vector)
            requires
                y == x & 0xFFFEu16,
        ;
        assert(shuffle(x) == shuffle(y));
        assert(shuffle_times(x, 0) == x);
        assert(shuffle_times(y, 0) == y);
    } else {
        lemma_shuffle_times_ignores_low_bit(x, (n - 1) as nat);
    }
}

/// The bits that a seed key clears are never read: from the first step on,
/// a seed walks exactly as its key's start does.
pub proof fn lemma_canonical_seed_same_walk(seed1: u8, seed2: u8, seed3: u8, n: nat)
    requires
        n >= 1,
    ensures
        iterate(seed_start(((seed1 as u16) << 8u16) | (seed2 as u16), seed3), n) == iterate(
            key_start(seed_key(seed1, seed2, seed3)),
            n,
        ),
    decreases n,
{
    let raw = seed_start(((seed1 as u16) << 8u16) | (seed2 as u16), seed3);
    let canon = key_start(seed_key(seed1, seed2, seed3));
    if n == 1 {
        let k = seed_key(seed1, seed2, seed3);
        let word = ((seed1 as u16) << 8u16) | (seed2 as u16);
        assert(((k & 0xF0u32) >> 4u32) as u8 == seed3 >> 4u8 && ((k >> 8u32) & 0xFFFFu32) as u16
            == word & 0xFFFEu16 && (k & 7u32) as u8 == seed3 & 7u8) by (bit_vector)
            requires
                k == ((seed1 as u32) << 16u32) | (((seed2 & 0xFEu8) as u32) << 8u32) | ((seed3
                    & 0xF7u8) as u32),
                word == ((seed1 as u16) << 8u16) | (seed2 as u16),
        ;
        assert(seed3 & 7u8 == seed3 % 8) by (bit_vector);
        let m = repeat_count(raw.0 as int);
        lemma_shuffle_times_ignores_low_bit(word, m);
        let roll = shuffle_times(raw.1, m);
        let c_raw = ((raw.2 as int + 1) % 256) as u8;
        let c_can = ((canon.2 as int + 1) % 256) as u8;
        assert(c_raw % 8 == c_can % 8);
        assert(first_pick(roll, c_raw) == first_pick(roll, c_can));
        assert(needs_reroll(roll, c_raw, 0) == needs_reroll(roll, c_can, 0));
        reveal(next_state);
        assert(iterate(raw, 0) == raw);
        assert(iterate(canon, 0) == canon);
        assert(iterate(raw, 1) == next_state(raw));
        assert(iterate(canon, 1) == next_state(canon));
    } else {
        lemma_canonical_seed_same_walk(seed1, seed2, seed3, (n - 1) as nat);
        assert(iterate(raw, n) == next_state(iterate(raw, (n - 1) as nat)));
        assert(iterate(canon, n) == next_state(iterate(canon, (n - 1) as nat)));
    }
}

/// Once a walk is on a closed cycle it stays on it, one position per step.
pub proof fn lemma_stays_on_cycle(s: PieceState, c: Seq<PieceState>, j: nat, p: int, t: nat)
    requires
        closed_cycle(c),
        0 <= p < c.len(),
        iterate(s, j) == c[p],
    ensures
        iterate(s, j + t) == c[(p + t) % (c.len() as int)],
    decreases t,
{
    let n = c.len() as int;
    if t == 0 {
        lemma_small_mod(p as nat, n as nat);
    } else {
        lemma_stays_on_cycle(s, c, j, p, (t - 1) as nat);
        let q = (p + (t - 1)) % n;
        lemma_mod_bound(p + (t - 1), n);
        assert(iterate(s, j + t) == next_state(iterate(s, (j + (t - 1)) as nat)));
        assert(next_state(c[q]) == c[(q + 1) % n]);
        lemma_add_mod_noop_right(1, p + (t - 1), n);
        assert(1 + (p + (t - 1)) == p + t);
    }
}

/// Two points of one walk that lie on known cycles lie on the same cycle.
proof fn lemma_same_cycle(e: &SeedExplorer, s: PieceState, j1: nat, l1: int, p1: int, j2: nat, l2: int, p2: int)
    requires
        e.wf(),
        0 <= l1 < e.known_loops@.len(),
        0 <= p1 < e.cycle(l1).len(),
        iterate(s, j1) == e.cycle(l1)[p1],
        0 <= l2 < e.known_loops@.len(),
        0 <= p2 < e.cycle(l2).len(),
        iterate(s, j2) == e.cycle(l2)[p2],
    ensures
        l1 == l2,
{
    let m = if j1 <= j2 { j2 } else { j1 };
    let t1 = (m - j1) as nat;
    let t2 = (m - j2) as nat;
    assert(closed_cycle(e.cycle(l1)));
    assert(closed_cycle(e.cycle(l2)));
    lemma_stays_on_cycle(s, e.cycle(l1), j1, p1, t1);
    lemma_stays_on_cycle(s, e.cycle(l2), j2, p2, t2);
    let q1 = (p1 + t1) % (e.cycle(l1).len() as int);
    let q2 = (p2 + t2) % (e.cycle(l2).len() as int);
    lemma_mod_bound(p1 + t1, e.cycle(l1).len() as int);
    lemma_mod_bound(p2 + t2, e.cycle(l2).len() as int);
    assert(j1 + t1 == m && j2 + t2 == m);
    assert(e.cycle(l1)[q1] == e.cycle(l2)[q2]);
    assert(e.loop_members@[state_key(e.cycle(l1)[q1])].0 == l1);
    assert(e.loop_members@[state_key(e.cycle(l2)[q2])].0 == l2);
}

/// The record of every explored seed names a known cycle by its first
/// state; the seed's walk is on that cycle after the recorded steps, and on
/// no known cycle before.
pub proof fn lemma_record_names_known_loop(e: &SeedExplorer, k: u32)
    requires
        e.wf(),
        e.known_seeds@.contains_key(k),
    ensures
        ({
            let rec = e.known_seeds@[k];
            let l = e.loop_of(rec);
            &&& 0 <= l < e.known_loops@.len()
            &&& e.cycle(l)[0] == rec.cycle_loop_id
            &&& rec.entry_index_in_loop < e.cycle(l).len()
            &&& iterate(key_start(k), rec.steps_to_cycle as nat) == e.cycle(l)[rec.entry_index_in_loop as int]
            &&& forall|i: nat, l2: int, p2: int|
                i < rec.steps_to_cycle && 0 <= l2 < e.known_loops@.len() && 0 <= p2 < e.cycle(l2).len()
                    ==> #[trigger] iterate(key_start(k), i) != #[trigger] e.cycle(l2)[p2]
        }),
{
    let rec = e.known_seeds@[k];
    assert(e.record_holds(k, rec));
    let key = state_key(rec.cycle_loop_id);
    assert(e.loop_members@.contains_key(key));
    lemma_state_key_injective(e.cycle(e.loop_of(rec))[0], rec.cycle_loop_id);
}

/// Seeds whose walks meet share their cycle: when the walk of one explored
/// seed passes through a state of the cycle that another explored seed
/// entered, both records name the same cycle, whichever seed came first.
pub proof fn lemma_cross_seed_sharing(e: &SeedExplorer, a: u32, b: u32, j: nat, p: int)
    requires
        e.wf(),
        e.known_seeds@.contains_key(a),
        e.known_seeds@.contains_key(b),
        0 <= p < e.cycle(e.loop_of(e.known_seeds@[b])).len(),
        iterate(key_start(a), j) == e.cycle(e.loop_of(e.known_seeds@[b]))[p],
    ensures
        e.known_seeds@[a].cycle_loop_id == e.known_seeds@[b].cycle_loop_id,
{
    let ra = e.known_seeds@[a];
    let rb = e.known_seeds@[b];
    lemma_record_names_known_loop(e, a);
    lemma_record_names_known_loop(e, b);
    lemma_same_cycle(
        e,
        key_start(a),
        j,
        e.loop_of(rb),
        p,
        ra.steps_to_cycle as nat,
        e.loop_of(ra),
        ra.entry_index_in_loop as int,
    );
}

impl SeedExplorer {
    /// The cycle at `l` as a sequence of states.
    pub open spec fn cycle(&self, l: int) -> Seq<PieceState> {
        self.known_loops@[l]@
    }

    /// The index of the cycle that a record names.
    pub open spec fn loop_of(&self, rec: CycleRecord) -> int {
        self.loop_members@[state_key(rec.cycle_loop_id)].0 as int
    }

    /// A record is right: it names the first state of a known cycle, the
    /// walk of the seed is at the recorded position of that cycle after the
    /// recorded number of steps, and at no earlier step on any known cycle.
    pub open spec fn record_holds(&self, k: u32, rec: CycleRecord) -> bool {
        let key = state_key(rec.cycle_loop_id);
        &&& self.loop_members@.contains_key(key)
        &&& self.loop_members@[key].1 == 0
        &&& rec.entry_index_in_loop < self.cycle(self.loop_of(rec)).len()
        &&& iterate(key_start(k), rec.steps_to_cycle as nat) == self.cycle(self.loop_of(rec))[rec.entry_index_in_loop as int]
        &&& forall|i: nat| #![trigger iterate(key_start(k), i)]
            i < rec.steps_to_cycle ==> !self.loop_members@.contains_key(state_key(iterate(key_start(k), i)))
    }

    /// Every known cycle is closed, `loop_members` indexes exactly their
    /// states (so no state lies on two cycles, nor twice on one), and every
    /// record holds.
    pub open spec fn wf(&self) -> bool {
        &&& forall|l: int| 0 <= l < self.known_loops@.len() ==> closed_cycle(#[trigger] self.cycle(l))
        &&& forall|l: int, p: int|
            0 <= l < self.known_loops@.len() && 0 <= p < self.cycle(l).len() ==> {
                let key = state_key(#[trigger] self.cycle(l)[p]);
                &&& self.loop_members@.contains_key(key)
                &&& self.loop_members@[key].0 == l
                &&& self.loop_members@[key].1 == p
            }
        &&& forall|k: u64| #[trigger]
            self.loop_members@.contains_key(k) ==> {
                let (l, p) = self.loop_members@[k];
                &&& l < self.known_loops@.len()
                &&& p < self.cycle(l as int).len()
                &&& state_key(self.cycle(l as int)[p as int]) == k
            }
        &&& forall|k: u32| #[trigger]
            self.known_seeds@.contains_key(k) ==> self.record_holds(k, self.known_seeds@[k])
    }

    /// An explorer that knows no seed and no cycle.
    pub fn new() -> (r: Self)
        ensures
            r.wf(),
            r.known_seeds@ == Map::<u32, CycleRecord>::empty(),
            r.known_loops@.len() == 0,
    {
        SeedExplorer {
            known_seeds: HashMap::new(),
            known_loops: Vec::new(),
            loop_members: HashMap::new(),
        }
    }

    /// Classifies one seed, unless it is known already: walks from it until
    /// the walk reaches a known cycle, or closes a new one, which is then
    /// recorded.
    pub fn explore_seed(
        &mut self,
        seed1: u8,
        seed2: u8,
        seed3: u8,
        shuffled: &Vec<u16>,
        by_repeats: &Vec<Vec<u16>>,
    )
        requires
            old(self).wf(),
            shuffle_table_wf(shuffled@),
            repeat_table_wf(by_repeats@),
        ensures
            final(self).wf(),
            final(self).known_seeds@.contains_key(seed_key(seed1, seed2, seed3)),
            old(self).known_seeds@.contains_key(seed_key(seed1, seed2, seed3)) ==> *final(self)
                == *old(self),
            forall|k: u32| #[trigger]
                old(self).known_seeds@.contains_key(k) ==> final(self).known_seeds@.contains_key(k)
                    && final(self).known_seeds@[k] == old(self).known_seeds@[k],
            forall|k: u32| #[trigger]
                final(self).known_seeds@.contains_key(k) ==> old(self).known_seeds@.contains_key(k)
                    || k == seed_key(seed1, seed2, seed3),
            old(self).known_loops@.len() <= final(self).known_loops@.len()
                <= old(self).known_loops@.len() + 1,
            forall|l: int|
                0 <= l < old(self).known_loops@.len() ==> #[trigger] final(self).cycle(l) == old(
                    self,
                ).cycle(l),
            forall|j: nat, l: int, p: int|
                0 <= l < old(self).known_loops@.len() && 0 <= p < old(self).cycle(l).len() && #[trigger] iterate(
                    key_start(seed_key(seed1, seed2, seed3)),
                    j,
                ) == #[trigger] old(self).cycle(l)[p] ==> final(self).known_loops@.len() == old(
                    self,
                ).known_loops@.len() && final(self).loop_of(
                    final(self).known_seeds@[seed_key(seed1, seed2, seed3)],
                ) == l,
    {
        let key = canonical_seed(seed1, seed2, seed3);
        let ghost pre = *self;
        if self.known_seeds.contains_key(&key) {
            proof {
                assert forall|j: nat, l: int, p: int|
                    0 <= l < pre.known_loops@.len() && 0 <= p < pre.cycle(l).len() && #[trigger] iterate(
                        key_start(key),
                        j,
                    ) == #[trigger] pre.cycle(l)[p] implies pre.loop_of(pre.known_seeds@[key]) == l by {
                    lemma_record_names_known_loop(&pre, key);
                    let rec = pre.known_seeds@[key];
                    lemma_same_cycle(
                        &pre,
                        key_start(key),
                        j,
                        l,
                        p,
                        rec.steps_to_cycle as nat,
                        pre.loop_of(rec),
                        rec.entry_index_in_loop as int,
                    );
                }
            }
            return;
        }
        let start = start_of_key(key);
        match self.walk(start, shuffled, by_repeats) {
            WalkEnd::Joined { steps, loop_index, position } => {
                let id = self.known_loops[loop_index][0];
                let record = CycleRecord {
                    steps_to_cycle: steps,
                    cycle_loop_id: id,
                    entry_index_in_loop: position,
                };
                self.known_seeds.insert(key, record);
                proof {
                    assert(closed_cycle(pre.cycle(loop_index as int)));
                    assert(pre.loop_members@[state_key(id)].1 == 0);
                    assert(self.record_holds(key, record));
                    assert forall|k: u32| #[trigger] self.known_seeds@.contains_key(k) implies self.record_holds(k, self.known_seeds@[k]) by {
                        if k != key {
                            assert(pre.record_holds(k, pre.known_seeds@[k]));
                        }
                    }
                    assert(self.known_loops == pre.known_loops);
                    assert(self.loop_members == pre.loop_members);
                    assert forall|ll: int| 0 <= ll < self.known_loops@.len() implies closed_cycle(#[trigger] self.cycle(ll)) by {
                        assert(self.cycle(ll) == pre.cycle(ll));
                    }
                    assert forall|kk: u64| #[trigger] self.loop_members@.contains_key(kk) implies {
                        let (ml, mp) = self.loop_members@[kk];
                        &&& ml < self.known_loops@.len()
                        &&& mp < self.cycle(ml as int).len()
                        &&& state_key(self.cycle(ml as int)[mp as int]) == kk
                    } by {
                        let (ml, mp) = pre.loop_members@[kk];
                        assert(self.cycle(ml as int) == pre.cycle(ml as int));
                    }
                    assert forall|ll: int, pp: int|
                        0 <= ll < self.known_loops@.len() && 0 <= pp < self.cycle(ll).len() implies {
                            let kk = state_key(#[trigger] self.cycle(ll)[pp]);
                            &&& self.loop_members@.contains_key(kk)
                            &&& self.loop_members@[kk].0 == ll
                            &&& self.loop_members@[kk].1 == pp
                        } by {
                        assert(self.cycle(ll) == pre.cycle(ll));
                        assert(pre.cycle(ll)[pp] == self.cycle(ll)[pp]);
                    }
                    assert(self.wf());
                    assert forall|j: nat, l: int, p: int|
                        0 <= l < pre.known_loops@.len() && 0 <= p < pre.cycle(l).len() && #[trigger] iterate(
                            key_start(key),
                            j,
                        ) == #[trigger] pre.cycle(l)[p] implies self.loop_of(record) == l by {
                        lemma_same_cycle(&pre, start, j, l, p, steps as nat, loop_index as int, position as int);
                    }
                }
            },
            WalkEnd::Closed { path, first } => {
                let l = self.known_loops.len();
                let mut body: Vec<PieceState> = Vec::new();
                let mut i: usize = first;
                while i < path.len()
                    invariant
                        pre.wf(),
                        first <= i <= path@.len(),
                        l == pre.known_loops@.len(),
                        self.known_loops == pre.known_loops,
                        self.known_seeds == pre.known_seeds,
                        body@ == path@.subrange(first as int, i as int),
                        forall|a: int, b: int| 0 <= a < b < path@.len() ==> #[trigger] path@[a] != #[trigger] path@[b],
                        forall|a: int| 0 <= a < path@.len() ==> !pre.loop_members@.contains_key(state_key(#[trigger] path@[a])),
                        forall|k: u64| #[trigger] pre.loop_members@.contains_key(k) ==> self.loop_members@.contains_key(k)
                            && self.loop_members@[k] == pre.loop_members@[k],
                        forall|q: int| 0 <= q < body@.len() ==> {
                            &&& self.loop_members@.contains_key(state_key(#[trigger] body@[q]))
                            &&& self.loop_members@[state_key(body@[q])].0 == l
                            &&& self.loop_members@[state_key(body@[q])].1 == q
                        },
                        forall|k: u64| #[trigger] self.loop_members@.contains_key(k) ==> pre.loop_members@.contains_key(k) || {
                            let (ml, mp) = self.loop_members@[k];
                            &&& ml == l
                            &&& mp < body@.len()
                            &&& state_key(body@[mp as int]) == k
                        },
                    decreases path@.len() - i,
                {
                    let state = path[i];
                    let state_key_now = key_of_state(state);
                    proof {
                        assert forall|q: int| 0 <= q < body@.len() implies state_key(#[trigger] body@[q]) != state_key_now by {
                            lemma_state_key_injective(body@[q], state);
                            assert(body@[q] == path@[first + q]);
                        }
                    }
                    self.loop_members.insert(state_key_now, (l, body.len()));
                    body.push(state);
                    i += 1;
                }
                let id = body[0];
                let record = CycleRecord { steps_to_cycle: first, cycle_loop_id: id, entry_index_in_loop: 0 };
                self.known_loops.push(body);
                self.known_seeds.insert(key, record);
                proof {
                    let c = self.cycle(l as int);
                    assert(c == path@.subrange(first as int, path@.len() as int));
                    assert forall|p: int| 0 <= p < c.len() implies #[trigger] next_state(c[p]) == c[(p + 1) % (c.len() as int)] by {
                        assert(c[p] == iterate(start, (first + p) as nat));
                        if p + 1 < c.len() {
                            lemma_small_mod((p + 1) as nat, c.len());
                        } else {
                            lemma_mod_self_0(c.len() as int);
                        }
                    }
                    assert(closed_cycle(c));
                    assert forall|ll: int| 0 <= ll < self.known_loops@.len() implies closed_cycle(#[trigger] self.cycle(ll)) by {
                        if ll < l {
                            assert(self.cycle(ll) == pre.cycle(ll));
                        }
                    }
                    assert forall|ll: int, pp: int|
                        0 <= ll < self.known_loops@.len() && 0 <= pp < self.cycle(ll).len() implies {
                            let kk = state_key(#[trigger] self.cycle(ll)[pp]);
                            &&& self.loop_members@.contains_key(kk)
                            &&& self.loop_members@[kk].0 == ll
                            &&& self.loop_members@[kk].1 == pp
                        } by {
                        if ll < l {
                            assert(self.cycle(ll) == pre.cycle(ll));
                        }
                    }
                    assert forall|kk: u64| #[trigger] self.loop_members@.contains_key(kk) implies {
                        let (ml, mp) = self.loop_members@[kk];
                        &&& ml < self.known_loops@.len()
                        &&& mp < self.cycle(ml as int).len()
                        &&& state_key(self.cycle(ml as int)[mp as int]) == kk
                    } by {
                        if pre.loop_members@.contains_key(kk) {
                            let (ml, mp) = pre.loop_members@[kk];
                            assert(self.cycle(ml as int) == pre.cycle(ml as int));
                        }
                    }
                    assert forall|k: u32| #[trigger] self.known_seeds@.contains_key(k) implies self.record_holds(k, self.known_seeds@[k]) by {
                        if k != key {
                            let rec = pre.known_seeds@[k];
                            assert(pre.record_holds(k, rec));
                            assert(self.cycle(pre.loop_of(rec)) == pre.cycle(pre.loop_of(rec)));
                            assert forall|i: nat| #![trigger iterate(key_start(k), i)]
                                i < rec.steps_to_cycle implies !self.loop_members@.contains_key(state_key(iterate(key_start(k), i))) by {
                                let x = iterate(key_start(k), i);
                                if self.loop_members@.contains_key(state_key(x)) {
                                    assert(!pre.loop_members@.contains_key(state_key(x)));
                                    let q = self.loop_members@[state_key(x)].1 as int;
                                    lemma_state_key_injective(c[q], x);
                                    let lk = pre.loop_of(rec);
                                    let e = rec.entry_index_in_loop as int;
                                    let t1 = (rec.steps_to_cycle - i) as nat;
                                    lemma_stays_on_cycle(key_start(k), c, i, q, t1);
                                    assert(i + t1 == rec.steps_to_cycle);
                                    let q2 = (q + t1) % (c.len() as int);
                                    lemma_mod_bound(q + t1, c.len() as int);
                                    assert(c[q2] == pre.cycle(lk)[e]);
                                    assert(c[q2] == path@[first + q2]);
                                    assert(pre.loop_members@.contains_key(state_key(pre.cycle(lk)[e])));
                                }
                            }
                        } else {
                            assert forall|i: nat| #![trigger iterate(key_start(k), i)]
                                i < first implies !self.loop_members@.contains_key(state_key(iterate(key_start(k), i))) by {
                                let x = iterate(key_start(k), i);
                                assert(x == path@[i as int]);
                                if self.loop_members@.contains_key(state_key(x)) {
                                    let q = self.loop_members@[state_key(x)].1 as int;
                                    lemma_state_key_injective(c[q], x);
                                    assert(c[q] == path@[first + q]);
                                }
                            }
                        }
                    }
                    assert(self.wf());
                    assert forall|jj: nat, ll: int, pp: int|
                        0 <= ll < pre.known_loops@.len() && 0 <= pp < pre.cycle(ll).len() && #[trigger] iterate(
                            key_start(key),
                            jj,
                        ) == #[trigger] pre.cycle(ll)[pp] implies false by {
                        let m = if jj <= first { first as nat } else { jj };
                        let t1 = (m - jj) as nat;
                        let t2 = (m - first) as nat;
                        assert(closed_cycle(pre.cycle(ll)));
                        lemma_stays_on_cycle(start, pre.cycle(ll), jj, pp, t1);
                        lemma_stays_on_cycle(start, c, first as nat, 0, t2);
                        let q1 = (pp + t1) % (pre.cycle(ll).len() as int);
                        let q2 = (0 + t2 as int) % (c.len() as int);
                        lemma_mod_bound(pp + t1, pre.cycle(ll).len() as int);
                        lemma_mod_bound(0 + t2 as int, c.len() as int);
                        assert(jj + t1 == m && first + t2 == m);
                        assert(pre.cycle(ll)[q1] == c[q2]);
                        assert(c[q2] == path@[first + q2]);
                        assert(pre.loop_members@.contains_key(state_key(pre.cycle(ll)[q1])));
                    }
                }
            },
        }
    }

    /// Steps from `start` until the walk reaches a state of a known cycle, or
    /// comes back to a state of its own.
    fn walk(&self, start: PieceState, shuffled: &Vec<u16>, by_repeats: &Vec<Vec<u16>>) -> (r: WalkEnd)
        requires
            self.wf(),
            start.0 < 16,
            shuffle_table_wf(shuffled@),
            repeat_table_wf(by_repeats@),
        ensures
            match r {
                WalkEnd::Joined { steps, loop_index, position } => {
                    &&& loop_index < self.known_loops@.len()
                    &&& position < self.cycle(loop_index as int).len()
                    &&& iterate(start, steps as nat) == self.cycle(loop_index as int)[position as int]
                    &&& forall|i: nat| #![trigger iterate(start, i)]
                        i < steps ==> !self.loop_members@.contains_key(state_key(iterate(start, i)))
                },
                WalkEnd::Closed { path, first } => {
                    &&& first < path@.len()
                    &&& forall|i: int| 0 <= i < path@.len() ==> #[trigger] path@[i] == iterate(start, i as nat)
                    &&& iterate(start, path@.len()) == path@[first as int]
                    &&& forall|i: int, j: int| 0 <= i < j < path@.len() ==> #[trigger] path@[i] != #[trigger] path@[j]
                    &&& forall|i: int| 0 <= i < path@.len() ==> !self.loop_members@.contains_key(state_key(#[trigger] path@[i]))
                },
            },
    {
        let mut path: Vec<PieceState> = Vec::new();
        let mut positions: HashMap<u64, usize> = HashMap::new();
        let mut current: PieceState = start;
        loop
            invariant
                self.wf(),
                shuffle_table_wf(shuffled@),
                repeat_table_wf(by_repeats@),
                current.0 == start.0,
                start.0 < 16,
                current == iterate(start, path@.len()),
                forall|i: int| 0 <= i < path@.len() ==> #[trigger] path@[i] == iterate(start, i as nat),
                forall|i: int| 0 <= i < path@.len() ==> !self.loop_members@.contains_key(state_key(#[trigger] path@[i])),
                forall|i: int| 0 <= i < path@.len() ==> {
                    &&& positions@.contains_key(state_key(#[trigger] path@[i]))
                    &&& positions@[state_key(path@[i])] == i
                },
                forall|k: u64| #[trigger] positions@.contains_key(k) ==> {
                    &&& positions@[k] < path@.len()
                    &&& state_key(path@[positions@[k] as int]) == k
                },
                !positions@.contains_key(state_key(current)),
                positions@.dom().len() == path@.len(),
            decreases 0x100_0000_0000 - path@.len(),
        {
            let key = key_of_state(current);
            match self.loop_members.get(&key) {
                Some(member) => {
                    let (loop_index, position) = *member;
                    proof {
                        lemma_state_key_injective(current, self.cycle(loop_index as int)[position as int]);
                        assert forall|i: nat| #![trigger iterate(start, i)]
                            i < path@.len() implies !self.loop_members@.contains_key(state_key(iterate(start, i))) by {
                            assert(path@[i as int] == iterate(start, i));
                        }
                    }
                    return WalkEnd::Joined { steps: path.len(), loop_index, position };
                },
                None => {},
            }
            let ghost old_positions = positions@;
            path.push(current);
            positions.insert(key, path.len() - 1);
            proof {
                assert forall|k: u64| #[trigger] positions@.dom().contains(k) implies k < 0x100_0000_0000 by {
                    let i = positions@[k] as int;
                    lemma_state_key_injective(path@[i], path@[i]);
                }
                lemma_state_keys_bounded(positions@.dom());
                assert(positions@.dom() == old_positions.dom().insert(key));
            }
            let next = get_next_piece(current.0, current.1, current.2, current.3, shuffled, by_repeats);
            let next_key = key_of_state(next);
            match positions.get(&next_key) {
                Some(first) => {
                    let first = *first;
                    proof {
                        lemma_state_key_injective(next, path@[first as int]);
                        assert forall|i: int, j: int| 0 <= i < j < path@.len() implies #[trigger] path@[i] != #[trigger] path@[j] by {
                            if path@[i] == path@[j] {
                                assert(positions@[state_key(path@[i])] == i);
                            }
                        }
                    }
                    return WalkEnd::Closed { path, first };
                },
                None => {},
            }
            current = next;
        }
    }
}

/// Explores the seeds in order, each walk reusing the cycles that the walks
/// before it found. Every seed ends up recorded, and nothing else is.
pub fn explore_seed_space(
    seeds: &Vec<(u8, u8, u8)>,
    shuffled: &Vec<u16>,
    by_repeats: &Vec<Vec<u16>>,
) -> (r: SeedExplorer)
    requires
        shuffle_table_wf(shuffled@),
        repeat_table_wf(by_repeats@),
    ensures
        r.wf(),
        forall|i: int|
            0 <= i < seeds@.len() ==> r.known_seeds@.contains_key(
                #[trigger] seed_key(seeds@[i].0, seeds@[i].1, seeds@[i].2),
            ),
        forall|k: u32| #[trigger]
            r.known_seeds@.contains_key(k) ==> exists|i: int|
                0 <= i < seeds@.len() && k == #[trigger] seed_key(seeds@[i].0, seeds@[i].1, seeds@[i].2),
{
    let mut explorer = SeedExplorer::new();
    for n in 0..seeds.len()
        invariant
            shuffle_table_wf(shuffled@),
            repeat_table_wf(by_repeats@),
            explorer.wf(),
            forall|i: int|
                0 <= i < n ==> explorer.known_seeds@.contains_key(
                    #[trigger] seed_key(seeds@[i].0, seeds@[i].1, seeds@[i].2),
                ),
            forall|k: u32| #[trigger]
                explorer.known_seeds@.contains_key(k) ==> exists|i: int|
                    0 <= i < n && k == #[trigger] seed_key(seeds@[i].0, seeds@[i].1, seeds@[i].2),
    {
        let (seed1, seed2, seed3) = seeds[n];
        explorer.explore_seed(seed1, seed2, seed3, shuffled, by_repeats);
        proof {
            assert(seeds@[n as int] == (seed1, seed2, seed3));
        }
    }
    explorer
}

/// The key of a seed, with the bits that no step reads cleared.
pub fn canonical_seed(seed1: u8, seed2: u8, seed3: u8) -> (r: u32)
    ensures
        r == seed_key(seed1, seed2, seed3),
{
    ((seed1 as u32) << 16) | (((seed2 & 0xFE) as u32) << 8) | ((seed3 & 0xF7) as u32)
}

fn start_of_key(k: u32) -> (r: PieceState)
    ensures
        r == key_start(k),
        r.0 < 16,
{
    let selector: u32 = (k & 0xF0) >> 4;
    assert(selector < 16) by (bit_vector)
        requires
            selector == (k & 0xF0u32) >> 4u32,
    ;
    (selector as u8, ((k >> 8) & 0xFFFF) as u16, (k & 7) as u8, 0)
}

fn key_of_state(s: PieceState) -> (r: u64)
    ensures
        r == state_key(s),
{
    ((s.0 as u64) << 32) | ((s.1 as u64) << 16) | ((s.2 as u64) << 8) | (s.3 as u64)
}

} // verus!
