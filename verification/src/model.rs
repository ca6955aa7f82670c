//! The mathematical model of the generator.
//!
//! The Mersenne Twister defines an unbounded sequence of 32-bit words by a
//! linear recurrence: the first `STATE_WORDS` words are the seeded state, and
//! every later word is computed from the words `STATE_WORDS`,
//! `STATE_WORDS - 1` and `STATE_WORDS - SHIFT_WORDS` positions before it. A
//! generator holds one block of `STATE_WORDS` consecutive words of that
//! sequence and a position inside the block; each output is the next word of
//! the sequence, tempered.

use vstd::prelude::*;

use crate::tempering::{temper_spec, untemper_spec, lemma_untemper_temper};

verus! {

/// Number of 32-bit words in the generator state.
pub const STATE_WORDS: usize = 624;

/// Distance of the middle word used by the recurrence.
pub const SHIFT_WORDS: usize = 397;

/// Twist matrix constant.
pub const MATRIX_A: u32 = 0x9908_b0df;

/// Mask of the most significant bit of a word.
pub const UPPER_MASK: u32 = 0x8000_0000;

/// Mask of the 31 least significant bits of a word.
pub const LOWER_MASK: u32 = 0x7fff_ffff;

/// The term of the recurrence contributed by the words `a` and `b` at
/// positions `k` and `k + 1`: the upper bit of `a` joined to the lower bits of
/// `b`, multiplied by the twist matrix.
pub open spec fn twist_term(a: u32, b: u32) -> u32 {
    let x = (a & UPPER_MASK) | (b & LOWER_MASK);
    (x >> 1u32) ^ (if x & 1u32 == 1u32 { MATRIX_A } else { 0u32 })
}

/// Word `k` of the sequence that the recurrence extends from the block `s`
/// of `STATE_WORDS` words.
pub open spec fn word(s: Seq<u32>, k: nat) -> u32
    decreases k,
{
    if k < STATE_WORDS {
        s[k as int]
    } else {
        word(s, (k - (STATE_WORDS - SHIFT_WORDS)) as nat) ^ twist_term(
            word(s, (k - STATE_WORDS) as nat),
            word(s, (k - STATE_WORDS + 1) as nat),
        )
    }
}

/// The block of `STATE_WORDS` words of the sequence extended from `s` that
/// starts at position `p`.
pub open spec fn block_at(s: Seq<u32>, p: nat) -> Seq<u32> {
    Seq::new(STATE_WORDS as nat, |i: int| word(s, (p + i) as nat))
}

/// The block that follows `s`: the regeneration of the whole state.
pub open spec fn twist(s: Seq<u32>) -> Seq<u32> {
    block_at(s, STATE_WORDS as nat)
}

/// The abstract state of a generator: a block of raw words and the position
/// of the next word to hand out (`STATE_WORDS` when the block is used up).
#[verifier::ext_equal]
pub struct MtState {
    pub words: Seq<u32>,
    pub idx: int,
}

impl MtState {
    /// A state that a generator can be in once seeded.
    pub open spec fn wf(self) -> bool {
        &&& self.words.len() == STATE_WORDS
        &&& 1 <= self.idx <= STATE_WORDS
    }

    /// The state after one output has been drawn.
    pub open spec fn step(self) -> MtState {
        if self.idx >= STATE_WORDS {
            MtState { words: twist(self.words), idx: 1 }
        } else {
            MtState { words: self.words, idx: self.idx + 1 }
        }
    }

    /// The output drawn by one step from this state.
    pub open spec fn emitted(self) -> u32 {
        let next = self.step();
        temper_spec(next.words[next.idx - 1])
    }

    /// The state after `n` outputs have been drawn.
    pub open spec fn advance(self, n: nat) -> MtState
        decreases n,
    {
        if n == 0 {
            self
        } else {
            self.step().advance((n - 1) as nat)
        }
    }

    /// Output `k` (counting from 0) of the stream drawn from this state.
    pub open spec fn nth_output(self, k: nat) -> u32 {
        self.advance(k).emitted()
    }
}

/// `a` comes before `b` in the lexicographic order of word sequences of the
/// same length: at the first word where they differ, `a`'s is smaller.
pub open spec fn words_less(a: Seq<u32>, b: Seq<u32>) -> bool {
    exists|i: int|
        0 <= i < a.len() && #[trigger] a[i] < b[i] && forall|j: int| 0 <= j < i ==> a[j] == b[j]
}

/// The order of generator states: by their words, lexicographically, then
/// by their position.
pub open spec fn state_less(x: MtState, y: MtState) -> bool {
    ||| words_less(x.words, y.words)
    ||| (x.words == y.words && x.idx < y.idx)
}

/// Two word sequences of `STATE_WORDS` words are ordered by their first
/// difference, at `i`; they are equal when there is none (`i == STATE_WORDS`).
pub proof fn lemma_first_difference_order(a: Seq<u32>, b: Seq<u32>, i: int)
    requires
        a.len() == STATE_WORDS,
        b.len() == STATE_WORDS,
        0 <= i <= STATE_WORDS,
        forall|k: int| 0 <= k < i ==> a[k] == b[k],
        i < STATE_WORDS ==> a[i] != b[i],
    ensures
        i < STATE_WORDS ==> (words_less(a, b) <==> a[i] < b[i]),
        i < STATE_WORDS ==> (words_less(b, a) <==> b[i] < a[i]),
        i == STATE_WORDS ==> a == b,
{
    if i < STATE_WORDS {
        assert forall|j: int|
            0 <= j < STATE_WORDS && #[trigger] a[j] < b[j] && (forall|k: int|
                0 <= k < j ==> a[k] == b[k]) implies j == i by {
            if j < i {
                assert(a[j] == b[j]);
            } else if j > i {
                assert(a[i] == b[i]);
            }
        }
        assert forall|j: int|
            0 <= j < STATE_WORDS && #[trigger] b[j] < a[j] && (forall|k: int|
                0 <= k < j ==> b[k] == a[k]) implies j == i by {
            if j < i {
                assert(a[j] == b[j]);
            } else if j > i {
                assert(a[i] == b[i]);
            }
        }
    } else {
        assert(a =~= b);
    }
}

/// `lemma_first_difference_order` at an index held in a `usize`.
pub proof fn lemma_first_difference_at(a: Seq<u32>, b: Seq<u32>, i: usize)
    requires
        a.len() == STATE_WORDS,
        b.len() == STATE_WORDS,
        i <= STATE_WORDS,
        forall|k: int| 0 <= k < i ==> a[k] == b[k],
        i < STATE_WORDS ==> a[i as int] != b[i as int],
    ensures
        i < STATE_WORDS ==> (words_less(a, b) <==> a[i as int] < b[i as int]),
        i < STATE_WORDS ==> (words_less(b, a) <==> b[i as int] < a[i as int]),
        i == STATE_WORDS ==> a == b,
{
    lemma_first_difference_order(a, b, i as int);
}

/// The state of a generator rebuilt from `STATE_WORDS` consecutive outputs:
/// each output untempered back to its raw word, the block used up.
pub open spec fn recovered_state(samples: Seq<u32>) -> MtState {
    MtState { words: samples.map_values(|x: u32| untemper_spec(x)), idx: STATE_WORDS as int }
}

/// The Mersenne Twister recurrence: every word from position 624 on is the
/// word 227 positions before it, xored with `(x >> 1)` and, when `x` is odd,
/// with `0x9908_b0df`, where `x` joins the top bit of the word 624 positions
/// before to the low 31 bits of the word 623 positions before.
pub proof fn lemma_recurrence(s: Seq<u32>, k: nat)
    requires
        k >= 624,
    ensures
        ({
            let x = (word(s, (k - 624) as nat) & 0x8000_0000u32) | (word(s, (k - 623) as nat)
                & 0x7fff_ffffu32);
            word(s, k) == word(s, (k - 227) as nat) ^ ((x >> 1u32) ^ (if x % 2 == 1 {
                0x9908_b0dfu32
            } else {
                0u32
            }))
        }),
        forall|i: int| 0 <= i < 624 ==> word(s, i as nat) == s[i],
{
    let x = (word(s, (k - 624) as nat) & 0x8000_0000u32) | (word(s, (k - 623) as nat)
        & 0x7fff_ffffu32);
    assert((x & 1u32 == 1u32) == (x % 2 == 1)) by (bit_vector);
}

/// Any block of consecutive words of the sequence extends to the same
/// sequence: the recurrence only looks back a bounded distance.
pub proof fn lemma_block_at_word(s: Seq<u32>, p: nat, k: nat)
    requires
        s.len() == STATE_WORDS,
    ensures
        word(block_at(s, p), k) == word(s, p + k),
    decreases k,
{
    let t = block_at(s, p);
    if k >= STATE_WORDS {
        lemma_block_at_word(s, p, (k - (STATE_WORDS - SHIFT_WORDS)) as nat);
        lemma_block_at_word(s, p, (k - STATE_WORDS) as nat);
        lemma_block_at_word(s, p, (k - STATE_WORDS + 1) as nat);
        assert(word(s, p + k) == word(s, (p + k - (STATE_WORDS - SHIFT_WORDS)) as nat)
            ^ twist_term(
            word(s, (p + k - STATE_WORDS) as nat),
            word(s, (p + k - STATE_WORDS + 1) as nat),
        ));
    }
}

/// One step keeps a state valid and moves its position in the sequence by one.
pub proof fn lemma_step(g: MtState, k: nat)
    requires
        g.wf(),
    ensures
        g.step().wf(),
        word(g.step().words, (g.step().idx + k) as nat) == word(g.words, (g.idx + 1 + k) as nat),
        g.emitted() == temper_spec(word(g.words, g.idx as nat)),
{
    if g.idx >= STATE_WORDS {
        lemma_block_at_word(g.words, STATE_WORDS as nat, 1 + k);
        lemma_block_at_word(g.words, STATE_WORDS as nat, 0);
    }
}

/// Drawing `n + 1` outputs is drawing `n` outputs and then one more.
pub proof fn lemma_advance_succ(g: MtState, n: nat)
    ensures
        g.advance(n + 1) == g.advance(n).step(),
    decreases n,
{
    assert(g.advance(n + 1) == g.step().advance(n));
    if n > 0 {
        lemma_advance_succ(g.step(), (n - 1) as nat);
    } else {
        assert(g.step().advance(0) == g.step());
    }
}

/// Drawing `n` outputs keeps a state valid and moves its position in the
/// sequence by `n`.
pub proof fn lemma_advance(g: MtState, n: nat, k: nat)
    requires
        g.wf(),
    ensures
        g.advance(n).wf(),
        word(g.advance(n).words, (g.advance(n).idx + k) as nat) == word(
            g.words,
            (g.idx + n + k) as nat,
        ),
    decreases n,
{
    if n > 0 {
        lemma_step(g, (n - 1 + k) as nat);
        lemma_step(g, 0);
        lemma_advance(g.step(), (n - 1) as nat, k);
    }
}

/// The output stream of a generator is the tempered sequence of words, read
/// from the generator's position on.
pub proof fn lemma_output_stream(g: MtState, k: nat)
    requires
        g.wf(),
    ensures
        g.nth_output(k) == temper_spec(word(g.words, (g.idx + k) as nat)),
{
    lemma_advance(g, k, 0);
    lemma_step(g.advance(k), 0);
}

/// Recovery: a generator rebuilt from `STATE_WORDS` consecutive outputs of
/// another generator reproduces every output that the sampled generator gives
/// after them.
pub proof fn lemma_recovery(g: MtState, samples: Seq<u32>, k: nat)
    requires
        g.wf(),
        samples.len() == STATE_WORDS,
        forall|j: int| 0 <= j < STATE_WORDS ==> samples[j] == #[trigger] g.nth_output(j as nat),
    ensures
        recovered_state(samples).wf(),
        recovered_state(samples).nth_output(k) == g.advance(STATE_WORDS as nat).nth_output(k),
{
    let r = recovered_state(samples);
    assert(r.words =~= block_at(g.words, g.idx as nat)) by {
        assert forall|i: int| 0 <= i < STATE_WORDS implies r.words[i] == word(
            g.words,
            (g.idx + i) as nat,
        ) by {
            assert(samples[i] == g.nth_output(i as nat));
            lemma_output_stream(g, i as nat);
            lemma_untemper_temper(word(g.words, (g.idx + i) as nat));
        }
    }
    lemma_output_stream(r, k);
    lemma_block_at_word(g.words, g.idx as nat, (STATE_WORDS + k) as nat);
    lemma_advance(g, STATE_WORDS as nat, 0);
    lemma_output_stream(g.advance(STATE_WORDS as nat), k);
    lemma_advance(g, STATE_WORDS as nat, k);
}

/// The word-by-word exclusive or of two blocks.
pub open spec fn xor_words(a: Seq<u32>, b: Seq<u32>) -> Seq<u32> {
    Seq::new(a.len(), |i: int| a[i] ^ b[i])
}

/// The twist term is linear over GF(2).
pub proof fn lemma_twist_term_linear(a1: u32, a2: u32, b1: u32, b2: u32)
    ensures
        twist_term(a1 ^ b1, a2 ^ b2) == twist_term(a1, a2) ^ twist_term(b1, b2),
{
    assert(twist_term(a1 ^ b1, a2 ^ b2) == twist_term(a1, a2) ^ twist_term(b1, b2)) by (bit_vector);
}

/// The sequence extended from the exclusive or of two blocks is the
/// exclusive or of the sequences extended from each.
pub proof fn lemma_word_linear(a: Seq<u32>, b: Seq<u32>, k: nat)
    requires
        a.len() == STATE_WORDS,
        b.len() == STATE_WORDS,
    ensures
        word(xor_words(a, b), k) == word(a, k) ^ word(b, k),
    decreases k,
{
    if k >= STATE_WORDS {
        let k1 = (k - (STATE_WORDS - SHIFT_WORDS)) as nat;
        let k2 = (k - STATE_WORDS) as nat;
        let k3 = (k - STATE_WORDS + 1) as nat;
        lemma_word_linear(a, b, k1);
        lemma_word_linear(a, b, k2);
        lemma_word_linear(a, b, k3);
        lemma_twist_term_linear(word(a, k2), word(a, k3), word(b, k2), word(b, k3));
        let x = word(a, k1);
        let y = word(b, k1);
        let ta = twist_term(word(a, k2), word(a, k3));
        let tb = twist_term(word(b, k2), word(b, k3));
        assert((x ^ y) ^ (ta ^ tb) == (x ^ ta) ^ (y ^ tb)) by (bit_vector);
    }
}

/// The regeneration of the state is linear over GF(2): regenerating the
/// exclusive or of two blocks gives the exclusive or of their regenerations.
/// In particular the all-zero block regenerates to itself.
pub proof fn lemma_twist_linear(a: Seq<u32>, b: Seq<u32>)
    requires
        a.len() == STATE_WORDS,
        b.len() == STATE_WORDS,
    ensures
        twist(xor_words(a, b)) == xor_words(twist(a), twist(b)),
{
    assert forall|i: int| 0 <= i < STATE_WORDS implies #[trigger] twist(xor_words(a, b))[i]
        == xor_words(twist(a), twist(b))[i] by {
        lemma_word_linear(a, b, (STATE_WORDS + i) as nat);
    }
    assert(twist(xor_words(a, b)) =~= xor_words(twist(a), twist(b)));
}

/// The all-zero block regenerates to itself.
pub proof fn lemma_twist_zero()
    ensures
        twist(Seq::new(STATE_WORDS as nat, |i: int| 0u32)) == Seq::new(
            STATE_WORDS as nat,
            |i: int| 0u32,
        ),
{
    let z = Seq::new(STATE_WORDS as nat, |i: int| 0u32);
    assert(xor_words(z, z) =~= z) by {
        assert forall|i: int| 0 <= i < STATE_WORDS implies xor_words(z, z)[i] == z[i] by {
            assert(0u32 ^ 0u32 == 0u32) by (bit_vector);
        }
    }
    lemma_twist_linear(z, z);
    assert forall|i: int| 0 <= i < STATE_WORDS implies twist(z)[i] == 0u32 by {
        let t = twist(z)[i];
        assert(xor_words(twist(z), twist(z))[i] == t ^ t);
        assert(t ^ t == 0u32) by (bit_vector);
    }
    assert(twist(z) =~= z);
}

} // verus!
