//! Deterministic pseudo-random bit sources.
//!
//! Everything here works on raw machine words. Turning a word into a
//! fraction of the unit interval is left to the caller.

use vstd::prelude::*;

verus! {

/// The state a [`RandomSource`] starts from when no seed is supplied.
pub const DEFAULT_SEED: u32 = 8589392;

/// One step of the 32-bit xorshift generator with shifts 13, 17 and 5.
pub open spec fn xorshift32_next(x: u32) -> u32 {
    let a = x ^ (x << 13);
    let b = a ^ (a >> 17);
    b ^ (b << 5)
}

/// One step of the 64-bit xorshift generator with shifts 13, 7 and 17.
pub open spec fn xorshift64_next(x: u64) -> u64 {
    let a = x ^ (x << 13);
    let b = a ^ (a >> 7);
    b ^ (b << 17)
}

/// The state reached from `seed` after `n` steps of the 32-bit generator.
pub open spec fn xorshift32_after(seed: u32, n: nat) -> u32
    decreases n,
{
    if n == 0 {
        seed
    } else {
        xorshift32_next(xorshift32_after(seed, (n - 1) as nat))
    }
}

/// The first `n` words produced by the 32-bit generator started at `seed`.
pub open spec fn xorshift32_stream(seed: u32, n: nat) -> Seq<u32> {
    Seq::new(n, |i: int| xorshift32_after(seed, (i + 1) as nat))
}

/// Advances `state` by one step of the 32-bit generator and returns the new
/// state, which is also the word produced.
pub fn xorshift32(state: &mut u32) -> (out: u32)
    ensures
        out == xorshift32_next(*old(state)),
        *final(state) == out,
{
    let mut x: u32 = *state;
    x ^= x << 13;
    x ^= x >> 17;
    x ^= x << 5;
    *state = x;
    x
}

/// Advances `state` by one step of the 64-bit generator and returns the new
/// state, which is also the word produced.
pub fn xorshift64(state: &mut u64) -> (out: u64)
    ensures
        out == xorshift64_next(*old(state)),
        *final(state) == out,
{
    let mut x: u64 = *state;
    x ^= x << 13;
    x ^= x >> 7;
    x ^= x << 17;
    *state = x;
    x
}

/// Zero is a fixed point of the 32-bit generator: a source seeded with zero
/// produces nothing but zeros.
pub proof fn lemma_xorshift32_zero_is_fixed()
    ensures
        xorshift32_next(0) == 0,
{
    assert(xorshift32_next(0) == 0) by (bit_vector);
}

/// A nonzero state is never followed by zero.
pub proof fn lemma_xorshift32_keeps_nonzero(x: u32)
    requires
        x != 0,
    ensures
        xorshift32_next(x) != 0,
{
    assert(x != 0 ==> xorshift32_next(x) != 0) by (bit_vector);
}

/// The step of the 32-bit generator is one-to-one: two different states
/// never lead to the same next state.
pub proof fn lemma_xorshift32_injective(x: u32, y: u32)
    requires
        xorshift32_next(x) == xorshift32_next(y),
    ensures
        x == y,
{
    assert(xorshift32_next(x) == xorshift32_next(y) ==> x == y) by (bit_vector);
}

/// Zero is a fixed point of the 64-bit generator, and no other state leads
/// to it.
pub proof fn lemma_xorshift64_zero_only_from_zero(x: u64)
    ensures
        xorshift64_next(x) == 0 <==> x == 0,
{
    assert(xorshift64_next(x) == 0 <==> x == 0) by (bit_vector);
}

/// Exchanges the upper and the lower 32 bits of a word.
pub open spec fn swap_halves(x: u64) -> u64 {
    (x >> 32) | (x << 32)
}

/// `x * x + w`, reduced modulo 2^64.
pub open spec fn square_plus(x: u64, w: u64) -> u64 {
    ((x * x + w) % 0x1_0000_0000_0000_0000) as u64
}

/// The word that the five-round counter-based "squares" generator assigns to
/// counter `ctr` under `key`. All arithmetic is modulo 2^64.
pub open spec fn squares64_value(ctr: u64, key: u64) -> u64 {
    let y = ((ctr * key) % 0x1_0000_0000_0000_0000) as u64;
    let z = ((y + key) % 0x1_0000_0000_0000_0000) as u64;
    let x1 = swap_halves(square_plus(y, y));
    let x2 = swap_halves(square_plus(x1, z));
    let x3 = swap_halves(square_plus(x2, y));
    let t = square_plus(x3, z);
    let x4 = swap_halves(t);
    t ^ (square_plus(x4, y) >> 32)
}

fn square_plus_wrapping(x: u64, w: u64) -> (out: u64)
    ensures
        out == square_plus(x, w),
{
    x.wrapping_mul(x).wrapping_add(w)
}

/// The counter-based generator: the word for counter `ctr` under `key`.
/// Unlike the xorshift generators it keeps no state, so any counter can be
/// asked for in any order.
pub fn squares64(ctr: u64, key: u64) -> (out: u64)
    ensures
        out == squares64_value(ctr, key),
{
    let y: u64 = ctr.wrapping_mul(key);
    let z: u64 = y.wrapping_add(key);
    let mut x: u64 = square_plus_wrapping(y, y);
    x = (x >> 32) | (x << 32);
    x = square_plus_wrapping(x, z);
    x = (x >> 32) | (x << 32);
    x = square_plus_wrapping(x, y);
    x = (x >> 32) | (x << 32);
    x = square_plus_wrapping(x, z);
    let t: u64 = x;
    x = (x >> 32) | (x << 32);
    t ^ (square_plus_wrapping(x, y) >> 32)
}

/// Swapping the halves of a word twice gives the word back.
pub proof fn lemma_swap_halves_involutive(x: u64)
    ensures
        swap_halves(swap_halves(x)) == x,
{
    assert(swap_halves(swap_halves(x)) == x) by (bit_vector);
}

/// In arithmetic terms, swapping the halves moves the low 32 bits to the top
/// and the high 32 bits to the bottom.
pub proof fn lemma_swap_halves_arithmetic(x: u64)
    ensures
        swap_halves(x) == (x % 0x1_0000_0000) * 0x1_0000_0000 + x / 0x1_0000_0000,
{
    assert(swap_halves(x) == (x % 0x1_0000_0000) * 0x1_0000_0000 + x / 0x1_0000_0000)
        by (bit_vector);
}

/// A seedable source of pseudo-random 32-bit words, driven by the 32-bit
/// xorshift generator. Its view is the current state word.
pub struct RandomSource {
    state: u32,
}

impl View for RandomSource {
    type V = u32;

    closed spec fn view(&self) -> u32 {
        self.state
    }
}

impl RandomSource {
    /// A source in the default starting state.
    pub fn new() -> (source: Self)
        ensures
            source@ == DEFAULT_SEED,
    {
        RandomSource { state: DEFAULT_SEED }
    }

    /// The current state word.
    pub fn state(&self) -> (word: u32)
        ensures
            word == self@,
    {
        self.state
    }
}

/// Restarts `source` from `seed`, forgetting whatever it produced before.
pub fn set_random_seed(source: &mut RandomSource, seed: u32)
    ensures
        final(source)@ == seed,
{
    source.state = seed;
}

/// Draws the next word from `source`.
pub fn random_u32(source: &mut RandomSource) -> (word: u32)
    ensures
        word == xorshift32_next(old(source)@),
        final(source)@ == word,
{
    xorshift32(&mut source.state)
}

/// Draws `n` words from `source`, in the order in which `n` single draws
/// would have produced them.
pub fn random_words(source: &mut RandomSource, n: usize) -> (words: Vec<u32>)
    ensures
        words@ == xorshift32_stream(old(source)@, n as nat),
        final(source)@ == xorshift32_after(old(source)@, n as nat),
{
    let ghost seed = source@;
    let mut words: Vec<u32> = Vec::new();
    let mut i: usize = 0;
    while i < n
        invariant
            i <= n,
            source@ == xorshift32_after(seed, i as nat),
            words@ == xorshift32_stream(seed, i as nat),
        decreases n - i,
    {
        let word = random_u32(source);
        words.push(word);
        i += 1;
    }
    words
}

/// Determinism: what a source produces depends on nothing but the state it
/// starts from. Two sources in the same state yield the same words, draw for
/// draw, and end in the same state.
pub proof fn lemma_same_seed_same_stream(a: RandomSource, b: RandomSource, n: nat)
    requires
        a@ == b@,
    ensures
        xorshift32_stream(a@, n) == xorshift32_stream(b@, n),
        xorshift32_after(a@, n) == xorshift32_after(b@, n),
{
}

/// Drawing `m` words and then `n` more is the same as drawing `m + n` at
/// once: a stream can be consumed in pieces.
pub proof fn lemma_stream_resumes(seed: u32, m: nat, n: nat)
    ensures
        xorshift32_after(xorshift32_after(seed, m), n) == xorshift32_after(seed, m + n),
        xorshift32_stream(seed, m + n) == xorshift32_stream(seed, m) + xorshift32_stream(
            xorshift32_after(seed, m),
            n,
        ),
{
    let whole = xorshift32_stream(seed, m + n);
    let pieces = xorshift32_stream(seed, m) + xorshift32_stream(xorshift32_after(seed, m), n);
    lemma_after_resumes(seed, m, n);
    assert forall|i: int| 0 <= i < m + n implies whole[i] == pieces[i] by {
        if i >= m {
            lemma_after_resumes(seed, m, (i - m + 1) as nat);
        }
    }
    assert(whole =~= pieces);
}

proof fn lemma_after_resumes(seed: u32, m: nat, n: nat)
    ensures
        xorshift32_after(xorshift32_after(seed, m), n) == xorshift32_after(seed, m + n),
    decreases n,
{
    if n > 0 {
        lemma_after_resumes(seed, m, (n - 1) as nat);
    }
}

/// A source started from a nonzero seed never reaches the zero state, and
/// so never falls into the all-zero stream.
pub proof fn lemma_nonzero_seed_never_zero(seed: u32, n: nat)
    requires
        seed != 0,
    ensures
        xorshift32_after(seed, n) != 0,
    decreases n,
{
    if n > 0 {
        lemma_nonzero_seed_never_zero(seed, (n - 1) as nat);
        lemma_xorshift32_keeps_nonzero(xorshift32_after(seed, (n - 1) as nat));
    }
}

/// The key under which the tiles of a render started from `base_seed` get
/// their seeds: the first two words of the base seed's own stream, the first
/// in the upper half.
pub open spec fn tile_key(base_seed: u32) -> u64 {
    let first = xorshift32_next(base_seed);
    let second = xorshift32_next(first);
    ((first as u64) << 32) | (second as u64)
}

/// The seed of the source that belongs to the task for tile `index` of a
/// render started from `base_seed`: the low half of the word that the
/// counter-based generator assigns to the tile number under the render's
/// key, or the default seed where that half is zero.
pub open spec fn tile_seed_value(base_seed: u32, index: u64) -> u32 {
    let low = squares64_value(index, tile_key(base_seed)) & 0xffff_ffff;
    if low == 0 {
        DEFAULT_SEED
    } else {
        low as u32
    }
}

/// The seed for the task that renders tile `index`. Each task draws from a
/// source of its own, so what a tile looks like depends on the base seed and
/// the tile number alone, not on which tasks ran beside it. The seed is
/// never zero.
pub fn tile_seed(base_seed: u32, index: u64) -> (seed: u32)
    ensures
        seed == tile_seed_value(base_seed, index),
        seed != 0,
{
    let mut state: u32 = base_seed;
    let first: u32 = xorshift32(&mut state);
    let second: u32 = xorshift32(&mut state);
    let key: u64 = ((first as u64) << 32) | (second as u64);
    let word: u64 = squares64(index, key);
    let low: u64 = word & 0xffff_ffff;
    assert(low <= 0xffff_ffff) by (bit_vector)
        requires
            low == word & 0xffff_ffff,
    ;
    if low == 0 {
        DEFAULT_SEED
    } else {
        low as u32
    }
}

} // verus!
