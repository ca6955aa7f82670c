//! The 32-bit Mersenne Twister generator.

use vstd::prelude::*;

use vstd::std_specs::cmp::{PartialEqSpec, PartialEqSpecImpl};

use crate::le_bytes::{le_bytes, le_value, lemma_le_roundtrip, u32_from_le_bytes, u32_to_le_bytes};
use crate::model::{
    lemma_advance, lemma_advance_succ, lemma_step, recovered_state, twist, twist_term, word,
    MtState, LOWER_MASK, MATRIX_A, SHIFT_WORDS, STATE_WORDS, UPPER_MASK,
};
use crate::seeding::{
    key_mix, key_mix_steps, key_state, scramble, seed_state, seed_word, KEYED_FIRST_WORD,
    KEY_BASE_SEED, KEY_MULTIPLIER, SCRAMBLE_MULTIPLIER, SEED_MULTIPLIER,
};
use crate::tempering::{temper, untemper, untemper_spec};

verus! {

/// The 32-bit flavor of the Mersenne Twister pseudorandom number generator.
///
/// Two generators are equal when their state words and their positions are;
/// they compare by their state words, lexicographically, and then by their
/// position in the state.
#[derive(Debug, Ord, Hash)]
pub struct MT19937 {
    state: [u32; 624],
    idx: usize,
}

impl View for MT19937 {
    type V = MtState;

    closed spec fn view(&self) -> MtState {
        MtState { words: self.state@, idx: self.idx as int }
    }
}

impl Clone for MT19937 {
    /// A copy of the generator, in the same state.
    fn clone(&self) -> (r: Self)
        ensures
            r@ == self@,
    {
        proof {
            use_type_invariant(self);
        }
        MT19937 { state: self.state, idx: self.idx }
    }
}

impl PartialEq for MT19937 {
    /// Two generators are equal when their state words and their positions
    /// are.
    fn eq(&self, other: &Self) -> (r: bool) {
        let mut i: usize = 0;
        while i < STATE_WORDS
            invariant
                i <= STATE_WORDS,
                forall|k: int| 0 <= k < i ==> self.state@[k] == other.state@[k],
            decreases STATE_WORDS - i,
        {
            if self.state[i] != other.state[i] {
                assert(self@.words[i as int] != other@.words[i as int]);
                return false;
            }
            i = i + 1;
        }
        assert(self.state@ =~= other.state@);
        self.idx == other.idx
    }
}

impl PartialEqSpecImpl for MT19937 {
    open spec fn obeys_eq_spec() -> bool {
        true
    }

    open spec fn eq_spec(&self, other: &Self) -> bool {
        self@ == other@
    }
}

impl Eq for MT19937 {

}

/// The twist term of the recurrence computed on machine words.
fn twist_term_exec(a: u32, b: u32) -> (r: u32)
    ensures
        r == twist_term(a, b),
{
    let x = (a & UPPER_MASK) | (b & LOWER_MASK);
    let low = x & 1u32;
    assert(low == 0u32 || low == 1u32) by (bit_vector)
        requires
            low == x & 1u32,
    ;
    (x >> 1u32) ^ (low * MATRIX_A)
}

impl MT19937 {
    /// A generator always holds a position inside its state block, or just
    /// past it when the block is used up.
    #[verifier::type_invariant]
    spec fn valid(self) -> bool {
        1 <= self.idx <= STATE_WORDS
    }

    /// A generator with zeroed state and its block marked used up, for
    /// seeding or recovery to fill.
    fn uninitialized() -> (r: Self)
        ensures
            r@.words == Seq::new(STATE_WORDS as nat, |i: int| 0u32),
            r@.idx == STATE_WORDS,
    {
        let r = MT19937 { state: [0u32; 624], idx: STATE_WORDS };
        assert(r@.words =~= Seq::new(STATE_WORDS as nat, |i: int| 0u32));
        r
    }

    /// Regenerates the whole state block: the block is replaced by the next
    /// `STATE_WORDS` words of the sequence. The caller moves the position back
    /// to the start.
    fn fill_next_state(&mut self)
        ensures
            final(self)@.words == twist(old(self)@.words),
            final(self)@.idx == old(self)@.idx,
    {
        proof {
            use_type_invariant(&*self);
        }
        let ghost s = self.state@;
        let mut i: usize = 0;
        while i < STATE_WORDS - SHIFT_WORDS
            invariant
                s.len() == STATE_WORDS,
                self.idx == old(self).idx,
                1 <= self.idx <= STATE_WORDS,
                i <= STATE_WORDS - SHIFT_WORDS,
                forall|k: int| 0 <= k < i ==> self.state@[k] == word(s, (STATE_WORDS + k) as nat),
                forall|k: int| i <= k < STATE_WORDS ==> self.state@[k] == s[k],
            decreases STATE_WORDS - SHIFT_WORDS - i,
        {
            let t = twist_term_exec(self.state[i], self.state[i + 1]);
            let v = self.state[i + SHIFT_WORDS] ^ t;
            assert(word(s, i as nat) == s[i as int]);
            assert(word(s, (i + 1) as nat) == s[i + 1]);
            assert(word(s, (i + SHIFT_WORDS) as nat) == s[i + SHIFT_WORDS]);
            assert(v == word(s, (STATE_WORDS + i) as nat));
            self.state[i] = v;
            i = i + 1;
        }
        while i < STATE_WORDS - 1
            invariant
                s.len() == STATE_WORDS,
                self.idx == old(self).idx,
                1 <= self.idx <= STATE_WORDS,
                STATE_WORDS - SHIFT_WORDS <= i <= STATE_WORDS - 1,
                forall|k: int| 0 <= k < i ==> self.state@[k] == word(s, (STATE_WORDS + k) as nat),
                forall|k: int| i <= k < STATE_WORDS ==> self.state@[k] == s[k],
            decreases STATE_WORDS - 1 - i,
        {
            let t = twist_term_exec(self.state[i], self.state[i + 1]);
            let v = self.state[i + SHIFT_WORDS - STATE_WORDS] ^ t;
            assert(word(s, i as nat) == s[i as int]);
            assert(word(s, (i + 1) as nat) == s[i + 1]);
            assert(v == word(s, (STATE_WORDS + i) as nat));
            self.state[i] = v;
            i = i + 1;
        }
        let t = twist_term_exec(self.state[STATE_WORDS - 1], self.state[0]);
        let v = self.state[SHIFT_WORDS - 1] ^ t;
        assert(word(s, (STATE_WORDS - 1) as nat) == s[STATE_WORDS - 1]);
        assert(v == word(s, (STATE_WORDS + STATE_WORDS - 1) as nat));
        self.state[STATE_WORDS - 1] = v;
        assert(self.state@ =~= twist(s));
    }

    /// Default seed used by [`MT19937::new_unseeded`].
    pub const DEFAULT_SEED: u32 = 5489u32;

    /// Reseeds the generator from a single `u32`: the state becomes the one
    /// seeded from `seed`, whatever it was before.
    pub fn reseed(&mut self, seed: u32)
        ensures
            final(self)@.wf(),
            final(self)@.words == seed_state(seed),
            final(self)@.idx == STATE_WORDS,
    {
        self.idx = STATE_WORDS;
        self.state[0] = seed;
        let mut i: usize = 1;
        while i < STATE_WORDS
            invariant
                1 <= i <= STATE_WORDS,
                self.idx == STATE_WORDS,
                forall|k: int| 0 <= k < i ==> self.state@[k] == seed_word(seed, k as nat),
            decreases STATE_WORDS - i,
        {
            let p = self.state[i - 1];
            self.state[i] = SEED_MULTIPLIER.wrapping_mul(p ^ (p >> 30u32)).wrapping_add(i as u32);
            i = i + 1;
        }
        assert(self.state@ =~= seed_state(seed));
    }

    /// Reseeds the generator from a key of `u32`s: the state becomes the one
    /// seeded from `key`, whatever it was before.
    pub fn reseed_from_slice(&mut self, key: &[u32])
        requires
            key@.len() > 0,
        ensures
            final(self)@.wf(),
            final(self)@.words == key_state(key@),
            final(self)@.idx == STATE_WORDS,
    {
        self.reseed(KEY_BASE_SEED);
        let mut i: usize = 1;
        let mut j: usize = 0;
        let steps: usize = if STATE_WORDS < key.len() {
            key.len()
        } else {
            STATE_WORDS
        };
        let mut n: usize = 0;
        while n < steps
            invariant
                key@.len() > 0,
                steps == key_mix_steps(key@.len()),
                n <= steps,
                1 <= i < STATE_WORDS,
                j < key@.len(),
                self.idx == STATE_WORDS,
                key_mix(key@, n as nat).words == self.state@,
                key_mix(key@, n as nat).i == i,
                key_mix(key@, n as nat).j == j,
            decreases steps - n,
        {
            let ghost c = key_mix(key@, n as nat);
            let p = self.state[i - 1];
            let v = (self.state[i] ^ (p ^ (p >> 30u32)).wrapping_mul(KEY_MULTIPLIER)).wrapping_add(
                key[j],
            ).wrapping_add(j as u32);
            self.state[i] = v;
            i = i + 1;
            j = j + 1;
            if i >= STATE_WORDS {
                self.state[0] = self.state[STATE_WORDS - 1];
                i = 1;
            }
            if j >= key.len() {
                j = 0;
            }
            n = n + 1;
            assert(key_mix(key@, n as nat).words =~= self.state@);
        }
        let ghost mixed = key_mix(key@, steps as nat);
        let mut m: usize = 0;
        while m < STATE_WORDS - 1
            invariant
                m <= STATE_WORDS - 1,
                1 <= i < STATE_WORDS,
                self.idx == STATE_WORDS,
                scramble(mixed, m as nat).words == self.state@,
                scramble(mixed, m as nat).i == i,
            decreases STATE_WORDS - 1 - m,
        {
            let p = self.state[i - 1];
            let v = (self.state[i] ^ (p ^ (p >> 30u32)).wrapping_mul(
                SCRAMBLE_MULTIPLIER,
            )).wrapping_sub(i as u32);
            self.state[i] = v;
            i = i + 1;
            if i >= STATE_WORDS {
                self.state[0] = self.state[STATE_WORDS - 1];
                i = 1;
            }
            m = m + 1;
            assert(scramble(mixed, m as nat).words =~= self.state@);
        }
        self.state[0] = KEYED_FIRST_WORD;
        assert(self.state@ =~= key_state(key@));
    }
}

impl MT19937 {
    /// Creates a generator seeded from the little-endian encoded `u32` in
    /// `seed`.
    pub fn from_seed(seed: [u8; 4]) -> (r: Self)
        ensures
            r@.wf(),
            r@.words == seed_state(le_value(seed@)),
            r@.idx == STATE_WORDS,
    {
        let mut mt = Self::uninitialized();
        mt.reseed(u32_from_le_bytes(seed));
        mt
    }

    /// Creates a generator seeded from `seed`.
    pub fn new(seed: u32) -> (r: Self)
        ensures
            r@.wf(),
            r@.words == seed_state(seed),
            r@.idx == STATE_WORDS,
    {
        let bytes = u32_to_le_bytes(seed);
        proof {
            lemma_le_roundtrip(seed);
        }
        Self::from_seed(bytes)
    }

    /// Creates a generator seeded from the key `key`.
    pub fn new_from_slice(key: &[u32]) -> (r: Self)
        requires
            key@.len() > 0,
        ensures
            r@.wf(),
            r@.words == key_state(key@),
            r@.idx == STATE_WORDS,
    {
        let mut mt = Self::uninitialized();
        mt.reseed_from_slice(key);
        mt
    }

    /// Creates a generator seeded from [`MT19937::DEFAULT_SEED`].
    pub fn new_unseeded() -> (r: Self)
        ensures
            r@.wf(),
            r@.words == seed_state(Self::DEFAULT_SEED),
            r@.idx == STATE_WORDS,
    {
        let bytes = u32_to_le_bytes(Self::DEFAULT_SEED);
        proof {
            lemma_le_roundtrip(Self::DEFAULT_SEED);
        }
        Self::from_seed(bytes)
    }

    /// Rebuilds a generator from `STATE_WORDS` consecutive outputs of
    /// another one; `None` unless `samples` holds exactly `STATE_WORDS` words.
    /// The rebuilt generator reproduces the outputs that follow the samples
    /// (see `lemma_recovery`).
    pub fn recover(samples: &[u32]) -> (r: Option<Self>)
        ensures
            r is None <==> samples@.len() != STATE_WORDS,
            r matches Some(mt) ==> mt@ == recovered_state(samples@),
            r matches Some(mt) ==> mt@.wf(),
    {
        if samples.len() != STATE_WORDS {
            return None;
        }
        let mut mt = Self::uninitialized();
        let mut i: usize = 0;
        while i < STATE_WORDS
            invariant
                samples@.len() == STATE_WORDS,
                mt.idx == STATE_WORDS,
                i <= STATE_WORDS,
                forall|k: int| 0 <= k < i ==> mt.state@[k] == untemper_spec(samples@[k]),
            decreases STATE_WORDS - i,
        {
            mt.state[i] = untemper(samples[i]);
            i = i + 1;
        }
        mt.idx = STATE_WORDS;
        assert(mt@.words =~= recovered_state(samples@).words);
        Some(mt)
    }

    /// Draws the next output: the next raw word of the sequence, tempered.
    /// When the state block is used up it is regenerated first.
    pub fn next_u32(&mut self) -> (r: u32)
        ensures
            final(self)@.wf(),
            final(self)@ == old(self)@.step(),
            r == old(self)@.emitted(),
    {
        proof {
            use_type_invariant(&*self);
            lemma_step(self@, 0);
        }
        let i = if self.idx >= STATE_WORDS {
            self.fill_next_state();
            0
        } else {
            self.idx
        };
        let x = self.state[i];
        self.idx = i + 1;
        temper(x)
    }

    /// Draws the next two outputs and joins them, the first in the upper half.
    pub fn next_u64(&mut self) -> (r: u64)
        ensures
            final(self)@.wf(),
            final(self)@ == old(self)@.advance(2),
            r == ((old(self)@.nth_output(0) as u64) << 32u64) | (old(self)@.nth_output(1) as u64),
            r == old(self)@.nth_output(0) * 0x1_0000_0000 + old(self)@.nth_output(1),
    {
        proof {
            use_type_invariant(&*self);
        }
        let ghost g = self@;
        proof {
            lemma_step(g, 0);
            lemma_advance_succ(g, 0);
            lemma_advance_succ(g, 1);
            assert(g.advance(0) == g);
        }
        let h = self.next_u32();
        let l = self.next_u32();
        let hi = h as u64;
        let lo = l as u64;
        assert((hi << 32u64) | lo == h * 0x1_0000_0000 + l) by (bit_vector)
            requires
                hi == h as u64,
                lo == l as u64,
        ;
        (hi << 32u64) | lo
    }

    /// Fills `dest` with the little-endian bytes of successive outputs, drawing
    /// outputs until `dest` is full: `(dest.len() + 3) / 4` of them. When the
    /// length of `dest` is not a multiple of 4 the unused bytes of the last
    /// output are discarded.
    pub fn fill_bytes(&mut self, dest: &mut [u8])
        ensures
            final(self)@.wf(),
            final(dest)@.len() == old(dest)@.len(),
            forall|k: int|
                0 <= k < old(dest)@.len() ==> final(dest)@[k] == le_bytes(
                    old(self)@.nth_output((k / 4) as nat),
                )[k % 4],
            final(self)@ == old(self)@.advance(((old(dest)@.len() + 3) / 4) as nat),
    {
        proof {
            use_type_invariant(&*self);
        }
        let ghost g = self@;
        let len = dest.len();
        let mut written: usize = 0;
        proof {
            assert(g.advance(0) == g);
            lemma_advance(g, 0, 0);
        }
        while written < len
            invariant
                g.wf(),
                len == dest@.len(),
                len == old(dest)@.len(),
                written <= len,
                written % 4 == 0 || written == len,
                self@ == g.advance(((written + 3) / 4) as nat),
                self@.wf(),
                forall|k: int|
                    0 <= k < written ==> dest@[k] == le_bytes(g.nth_output((k / 4) as nat))[k
                        % 4],
            decreases len - written,
        {
            let ghost n = (written / 4) as nat;
            proof {
                lemma_advance_succ(g, n);
                lemma_advance(g, n + 1, 0);
            }
            let w = self.next_u32();
            let bytes = u32_to_le_bytes(w);
            if len - written >= 4 {
                dest[written] = bytes[0];
                dest[written + 1] = bytes[1];
                dest[written + 2] = bytes[2];
                dest[written + 3] = bytes[3];
                written = written + 4;
            } else {
                let rest = len - written;
                let mut b: usize = 0;
                while b < rest
                    invariant
                        rest == len - written,
                        rest < 4,
                        b <= rest,
                        len == dest@.len(),
                        w == g.nth_output(n),
                        written == 4 * n,
                        bytes@ == le_bytes(w),
                        forall|k: int|
                            0 <= k < written + b ==> dest@[k] == le_bytes(
                                g.nth_output((k / 4) as nat),
                            )[k % 4],
                    decreases rest - b,
                {
                    dest[written + b] = bytes[b];
                    b = b + 1;
                }
                written = len;
            }
        }
    }

    /// The raw state words of the generator.
    pub fn state(&self) -> (r: &[u32; 624])
        ensures
            self@.wf(),
            r@ == self@.words,
    {
        proof {
            use_type_invariant(self);
        }
        &self.state
    }

    /// The index of the first state word at which `self` and `other` differ,
    /// or `STATE_WORDS` when all their words are equal.
    pub fn first_difference(&self, other: &Self) -> (r: usize)
        ensures
            r <= STATE_WORDS,
            forall|k: int| 0 <= k < r ==> self@.words[k] == other@.words[k],
            r < STATE_WORDS ==> self@.words[r as int] != other@.words[r as int],
    {
        let mut i: usize = 0;
        while i < STATE_WORDS
            invariant
                i <= STATE_WORDS,
                forall|k: int| 0 <= k < i ==> self.state@[k] == other.state@[k],
            decreases STATE_WORDS - i,
        {
            if self.state[i] != other.state[i] {
                return i;
            }
            i = i + 1;
        }
        i
    }

    /// The position in the state of the next word to hand out.
    pub fn position(&self) -> (r: usize)
        ensures
            self@.wf(),
            r == self@.idx,
    {
        proof {
            use_type_invariant(self);
        }
        self.idx
    }
}

/// A generator created from a `u32` seed is the one created from the
/// seed's little-endian bytes: both hold the state seeded from that word.
pub proof fn lemma_new_matches_from_seed(seed: u32)
    ensures
        seed_state(le_value(le_bytes(seed))) == seed_state(seed),
{
    lemma_le_roundtrip(seed);
}

/// Two generators are equal exactly when they hold the same state words and
/// the same position; equal generators give the same outputs from then on.
pub proof fn lemma_eq_same_state_and_position(a: MT19937, b: MT19937)
    ensures
        PartialEqSpec::eq_spec(&a, &b) <==> (a@.words == b@.words && a@.idx == b@.idx),
        PartialEqSpec::eq_spec(&a, &b) ==> forall|k: nat| a@.nth_output(k) == b@.nth_output(k),
{
}

impl Default for MT19937 {
    /// A generator seeded from [`MT19937::DEFAULT_SEED`].
    fn default() -> (r: Self)
        ensures
            r@.wf(),
            r@.words == seed_state(Self::DEFAULT_SEED),
            r@.idx == STATE_WORDS,
    {
        Self::new_unseeded()
    }
}

} // verus!
