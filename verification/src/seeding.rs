//! The two ways of seeding the state: from a single word, and from a key of
//! words mixed into a state seeded from a fixed word.

use vstd::arithmetic::div_mod::{lemma_add_mod_noop, lemma_mod_self_0, lemma_small_mod};
use vstd::prelude::*;
use vstd::wrapping::u32_specs::{wrapping_add, wrapping_mul, wrapping_sub};

use crate::model::STATE_WORDS;

verus! {

/// Multiplier of the single-word seeding recurrence.
pub const SEED_MULTIPLIER: u32 = 1_812_433_253;

/// Word from which the state is seeded before a key is mixed in.
pub const KEY_BASE_SEED: u32 = 19_650_218;

/// Multiplier of the pass that mixes the key into the state.
pub const KEY_MULTIPLIER: u32 = 1_664_525;

/// Multiplier of the pass that scrambles the state after the key.
pub const SCRAMBLE_MULTIPLIER: u32 = 1_566_083_941;

/// Value of the first state word once a key has been mixed in.
pub const KEYED_FIRST_WORD: u32 = 0x8000_0000;

/// `w` with its upper bits folded into its lower bits.
pub open spec fn fold_high(w: u32) -> u32 {
    w ^ (w >> 30u32)
}

/// Word `i` of the state seeded from `seed`: the seed, then each word the
/// previous one folded, multiplied and offset by its position, modulo 2^32.
pub open spec fn seed_word(seed: u32, i: nat) -> u32
    decreases i,
{
    if i == 0 {
        seed
    } else {
        wrapping_add(
            wrapping_mul(SEED_MULTIPLIER, fold_high(seed_word(seed, (i - 1) as nat))),
            i as u32,
        )
    }
}

/// The state seeded from a single word.
pub open spec fn seed_state(seed: u32) -> Seq<u32> {
    Seq::new(STATE_WORDS as nat, |i: int| seed_word(seed, i as nat))
}

/// A position in the state while a key is mixed in: the state, the index `i`
/// of the word to update next, and the index `j` of the key word to use next.
pub struct KeyCursor {
    pub words: Seq<u32>,
    pub i: int,
    pub j: int,
}

/// Moves the word index on by one; past the end of the state, the last word
/// is copied to the first and the index goes back to 1.
pub open spec fn wrap_word_index(words: Seq<u32>, i: int) -> (Seq<u32>, int) {
    if i + 1 >= STATE_WORDS {
        (words.update(0, words[STATE_WORDS - 1]), 1)
    } else {
        (words, i + 1)
    }
}

/// One step of mixing the key into the state.
pub open spec fn key_step(key: Seq<u32>, c: KeyCursor) -> KeyCursor {
    let v = wrapping_add(
        wrapping_add(
            c.words[c.i] ^ wrapping_mul(fold_high(c.words[c.i - 1]), KEY_MULTIPLIER),
            key[c.j],
        ),
        c.j as u32,
    );
    let (words, i) = wrap_word_index(c.words.update(c.i, v), c.i);
    KeyCursor { words, i, j: if c.j + 1 >= key.len() { 0 } else { c.j + 1 } }
}

/// The cursor after `n` steps of mixing the key into the state seeded from
/// `KEY_BASE_SEED`.
pub open spec fn key_mix(key: Seq<u32>, n: nat) -> KeyCursor
    decreases n,
{
    if n == 0 {
        KeyCursor { words: seed_state(KEY_BASE_SEED), i: 1, j: 0 }
    } else {
        key_step(key, key_mix(key, (n - 1) as nat))
    }
}

/// One step of the scrambling pass that follows the key.
pub open spec fn scramble_step(c: KeyCursor) -> KeyCursor {
    let v = wrapping_sub(
        c.words[c.i] ^ wrapping_mul(fold_high(c.words[c.i - 1]), SCRAMBLE_MULTIPLIER),
        c.i as u32,
    );
    let (words, i) = wrap_word_index(c.words.update(c.i, v), c.i);
    KeyCursor { words, i, j: c.j }
}

/// The cursor after `n` scrambling steps from `c`.
pub open spec fn scramble(c: KeyCursor, n: nat) -> KeyCursor
    decreases n,
{
    if n == 0 {
        c
    } else {
        scramble_step(scramble(c, (n - 1) as nat))
    }
}

/// Number of key-mixing steps for a key of `len` words: at least one per
/// state word, and at least one per key word.
pub open spec fn key_mix_steps(len: nat) -> nat {
    if len > STATE_WORDS {
        len
    } else {
        STATE_WORDS as nat
    }
}

/// The state seeded from a key: the key mixed in, the state scrambled once
/// more, and the first word set to `KEYED_FIRST_WORD`.
pub open spec fn key_state(key: Seq<u32>) -> Seq<u32> {
    let mixed = key_mix(key, key_mix_steps(key.len()));
    let scrambled = scramble(mixed, (STATE_WORDS - 1) as nat);
    scrambled.words.update(0, KEYED_FIRST_WORD)
}

/// Arithmetic modulo 2^32.
pub open spec fn mod32(x: int) -> int {
    x % 0x1_0000_0000
}

/// Wrapping addition is addition modulo 2^32.
pub proof fn lemma_wrapping_add_mod(x: u32, y: u32)
    ensures
        wrapping_add(x, y) == mod32(x + y),
{
    if x + y > u32::MAX {
        lemma_small_mod((x + y - 0x1_0000_0000) as nat, 0x1_0000_0000);
        lemma_add_mod_noop(x + y - 0x1_0000_0000, 0x1_0000_0000, 0x1_0000_0000);
        lemma_mod_self_0(0x1_0000_0000);
    } else {
        lemma_small_mod((x + y) as nat, 0x1_0000_0000);
    }
}

/// Wrapping subtraction is subtraction modulo 2^32.
pub proof fn lemma_wrapping_sub_mod(x: u32, y: u32)
    ensures
        wrapping_sub(x, y) == mod32(x - y),
{
    if x - y < 0 {
        lemma_small_mod((x - y + 0x1_0000_0000) as nat, 0x1_0000_0000);
        lemma_add_mod_noop(x - y, 0x1_0000_0000, 0x1_0000_0000);
        lemma_mod_self_0(0x1_0000_0000);
        lemma_small_mod(0, 0x1_0000_0000);
    } else {
        lemma_small_mod((x - y) as nat, 0x1_0000_0000);
    }
}

/// `x % m + 1` wraps to 0 exactly when it reaches `m`.
pub proof fn lemma_mod_succ(n: int, m: int)
    requires
        n >= 0,
        m > 0,
    ensures
        (n + 1) % m == (if n % m + 1 == m { 0 } else { n % m + 1 }),
{
    lemma_add_mod_noop(n, 1, m);
    if m == 1 {
    } else {
        lemma_small_mod(1, m as nat);
        if n % m + 1 == m {
            lemma_mod_self_0(m);
        } else {
            lemma_small_mod((n % m + 1) as nat, m as nat);
        }
    }
}

/// Seeding from a word: word 0 of the state is the seed itself, and each
/// later word `i` is `1812433253 * (w ^ (w >> 30)) + i` modulo 2^32, where
/// `w` is the word before it.
pub proof fn lemma_seed_state(seed: u32)
    ensures
        seed_state(seed).len() == STATE_WORDS,
        seed_state(seed)[0] == seed,
        forall|i: int|
            1 <= i < STATE_WORDS ==> #[trigger] seed_state(seed)[i] == mod32(
                1_812_433_253 * (seed_state(seed)[i - 1] ^ (seed_state(seed)[i - 1] >> 30u32)) + i,
            ),
{
    assert forall|i: int| 1 <= i < STATE_WORDS implies #[trigger] seed_state(seed)[i] == mod32(
        1_812_433_253 * (seed_state(seed)[i - 1] ^ (seed_state(seed)[i - 1] >> 30u32)) + i,
    ) by {
        let w = seed_state(seed)[i - 1];
        let f = w ^ (w >> 30u32);
        let p = wrapping_mul(SEED_MULTIPLIER, f);
        assert(seed_state(seed)[i] == wrapping_add(p, i as u32));
        lemma_wrapping_add_mod(p, i as u32);
        assert(p == mod32(1_812_433_253 * f));
        lemma_small_mod(i as nat, 0x1_0000_0000);
        lemma_add_mod_noop(1_812_433_253 * f, i, 0x1_0000_0000);
        lemma_small_mod(p as nat, 0x1_0000_0000);
    }
}

/// The word index and key index of the key-mixing pass: at step `n` the word
/// updated is `n % 623 + 1` (the word indices run over 1..=623 and wrap),
/// and the key word used is `key[n % key.len()]`, for every key length.
pub proof fn lemma_key_mix_cursor(key: Seq<u32>, n: nat)
    requires
        key.len() > 0,
    ensures
        key_mix(key, n).words.len() == STATE_WORDS,
        key_mix(key, n).i == (n as int) % ((STATE_WORDS - 1) as int) + 1,
        key_mix(key, n).j == (n as int) % (key.len() as int),
    decreases n,
{
    if n > 0 {
        lemma_key_mix_cursor(key, (n - 1) as nat);
        lemma_mod_succ(n - 1, (STATE_WORDS - 1) as int);
        lemma_mod_succ(n - 1, key.len() as int);
    }
}

/// One step of the key-mixing pass, in terms of its inputs: with `i` and `j`
/// the word and key indices of step `n`, word `i` becomes
/// `(w[i] ^ (1664525 * (w[i-1] ^ (w[i-1] >> 30)) mod 2^32)) + key[j] + j`
/// modulo 2^32; when `i` is the last word it is also copied to word 0; every
/// other word stays.
pub proof fn lemma_key_mix_step(key: Seq<u32>, n: nat)
    requires
        key.len() > 0,
    ensures
        ({
            let c = key_mix(key, n);
            let d = key_mix(key, n + 1);
            let i: int = (n as int) % ((STATE_WORDS - 1) as int) + 1;
            let j: int = (n as int) % (key.len() as int);
            let w = c.words;
            let f = w[i - 1] ^ (w[i - 1] >> 30u32);
            &&& d.words.len() == STATE_WORDS
            &&& d.words[i] == mod32(
                (w[i] ^ (mod32(f * 1_664_525) as u32)) + key[j] + (j as u32),
            )
            &&& d.words[0] == (if i == STATE_WORDS - 1 { d.words[i] } else { w[0] })
            &&& forall|k: int| 1 <= k < STATE_WORDS && k != i ==> d.words[k] == w[k]
        }),
{
    lemma_key_mix_cursor(key, n);
    let c = key_mix(key, n);
    let i = c.i;
    let j = c.j;
    let w = c.words;
    let f = w[i - 1] ^ (w[i - 1] >> 30u32);
    let m = wrapping_mul(f, KEY_MULTIPLIER);
    assert(m == mod32(f * 1_664_525));
    let x = w[i] ^ m;
    let y = wrapping_add(x, key[j]);
    lemma_wrapping_add_mod(x, key[j]);
    lemma_wrapping_add_mod(y, j as u32);
    lemma_small_mod((j as u32) as nat, 0x1_0000_0000);
    lemma_add_mod_noop(x + key[j], (j as u32) as int, 0x1_0000_0000);
    lemma_small_mod(y as nat, 0x1_0000_0000);
}

/// The word index of the scrambling pass: it carries on from where the key
/// left it, running over 1..=623 and wrapping.
pub proof fn lemma_scramble_cursor(c: KeyCursor, m: nat)
    requires
        c.words.len() == STATE_WORDS,
        1 <= c.i < STATE_WORDS,
    ensures
        scramble(c, m).words.len() == STATE_WORDS,
        scramble(c, m).i == (c.i - 1 + m) % ((STATE_WORDS - 1) as int) + 1,
    decreases m,
{
    if m == 0 {
        lemma_small_mod((c.i - 1) as nat, (STATE_WORDS - 1) as nat);
    } else {
        lemma_scramble_cursor(c, (m - 1) as nat);
        lemma_mod_succ(c.i - 1 + m - 1, (STATE_WORDS - 1) as int);
    }
}

/// One step of the scrambling pass, in terms of its inputs: word `i` becomes
/// `(w[i] ^ (1566083941 * (w[i-1] ^ (w[i-1] >> 30)) mod 2^32)) - i` modulo
/// 2^32; when `i` is the last word it is also copied to word 0; every other
/// word stays.
pub proof fn lemma_scramble_step(c: KeyCursor, m: nat)
    requires
        c.words.len() == STATE_WORDS,
        1 <= c.i < STATE_WORDS,
    ensures
        ({
            let a = scramble(c, m);
            let b = scramble(c, m + 1);
            let i: int = (c.i - 1 + m) % ((STATE_WORDS - 1) as int) + 1;
            let w = a.words;
            let f = w[i - 1] ^ (w[i - 1] >> 30u32);
            &&& b.words.len() == STATE_WORDS
            &&& b.words[i] == mod32((w[i] ^ (mod32(f * 1_566_083_941) as u32)) - i)
            &&& b.words[0] == (if i == STATE_WORDS - 1 { b.words[i] } else { w[0] })
            &&& forall|k: int| 1 <= k < STATE_WORDS && k != i ==> b.words[k] == w[k]
        }),
{
    lemma_scramble_cursor(c, m);
    let a = scramble(c, m);
    let i = a.i;
    let w = a.words;
    let f = w[i - 1] ^ (w[i - 1] >> 30u32);
    let x = w[i] ^ wrapping_mul(f, SCRAMBLE_MULTIPLIER);
    lemma_wrapping_sub_mod(x, i as u32);
}

/// Seeding from a key: the state seeded from `KEY_BASE_SEED` goes through
/// `max(624, key.len())` key-mixing steps, then 623 scrambling steps, and
/// its word 0 is finally set to `0x8000_0000`.
pub proof fn lemma_key_state(key: Seq<u32>)
    requires
        key.len() > 0,
    ensures
        key_state(key).len() == STATE_WORDS,
        key_state(key)[0] == 0x8000_0000,
        forall|k: int|
            1 <= k < STATE_WORDS ==> #[trigger] key_state(key)[k] == scramble(
                key_mix(key, if key.len() > 624 { key.len() } else { 624 }),
                623,
            ).words[k],
{
    let n: nat = if key.len() > 624 { key.len() } else { 624 };
    assert(key_mix_steps(key.len()) == n);
    lemma_key_mix_cursor(key, n);
    lemma_scramble_cursor(key_mix(key, n), 623);
}

} // verus!
