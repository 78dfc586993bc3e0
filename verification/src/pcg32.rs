//! PCG32 random number generation for fast sampling.
//!
//! The generator is a 64-bit linear congruential state whose successive
//! values are decorrelated by the XSH-RR output permutation. A generator is
//! an ordinary value: whoever samples owns one and hands it, mutably, to the
//! functions that draw from it, so one generator is never seen by two threads.
use crate::clock::precise_time_ns;
use vstd::prelude::*;

verus! {

/// Multiplier of the linear congruential step, an odd constant.
pub const MULTIPLIER: u64 = 6364136223846793005;

/// Increment of the linear congruential step, an odd constant.
pub const INCREMENT: u64 = 1442695040888963407;

/// The fixed odd constant that every seed starts from.
pub const SEED_CONSTANT: u64 = 5573589319906701683;

/// The state that follows `state`: `state * MULTIPLIER + INCREMENT` modulo 2^64.
pub open spec fn advance(state: u64) -> u64 {
    ((state as int * MULTIPLIER as int + INCREMENT as int) % 0x1_0000_0000_0000_0000) as u64
}

/// `word` with its bits rotated to the right by `amount` places, for
/// `amount` below 32.
pub open spec fn rotate_right(word: u32, amount: u32) -> u32 {
    if amount == 0 {
        word
    } else {
        (word >> amount) | (word << ((32 - amount) as u32))
    }
}

/// The 32-bit value drawn from `state`: the xor-shifted high bits of the
/// state, rotated right by the amount that its top five bits give.
pub open spec fn output(state: u64) -> u32 {
    rotate_right((((state >> 18) ^ state) >> 27) as u32, (state >> 59) as u32)
}

/// The state a generator starts in when the clock reads `time_ns` at seeding:
/// the seed constant advanced once, the reading added, and advanced again.
pub open spec fn seed_state(time_ns: u64) -> u64 {
    advance(vstd::wrapping::u64_specs::wrapping_add(advance(SEED_CONSTANT), time_ns))
}

/// Advances `state` by one linear congruential step.
fn step(state: u64) -> (next: u64)
    ensures
        next == advance(state),
{
    let product = state.wrapping_mul(MULTIPLIER);
    let next = product.wrapping_add(INCREMENT);
    assert(next == advance(state)) by {
        let p = state as int * MULTIPLIER as int;
        assert(product as int == p % 0x1_0000_0000_0000_0000);
        vstd::arithmetic::div_mod::lemma_add_mod_noop(
            p,
            INCREMENT as int,
            0x1_0000_0000_0000_0000,
        );
        vstd::arithmetic::div_mod::lemma_small_mod(INCREMENT as nat, 0x1_0000_0000_0000_0000);
    }
    next
}

/// The state to start a generator in, given a clock reading taken at seeding
/// time. Different readings give different states: see
/// `lemma_seed_state_injective`.
pub fn seed_from(time_ns: u64) -> (state: u64)
    ensures
        state == seed_state(time_ns),
{
    step(step(SEED_CONSTANT).wrapping_add(time_ns))
}

/// Reads the clock and mixes the reading into a starting state. Which state
/// comes back depends on the reading alone.
pub fn seed() -> (state: u64)
    ensures
        exists|time_ns: u64| state == seed_state(time_ns),
{
    let time_ns = precise_time_ns();
    seed_from(time_ns)
}

/// Rotates `word` to the right by `amount` places.
fn rotate(word: u32, amount: u32) -> (rotated: u32)
    requires
        amount < 32,
    ensures
        rotated == rotate_right(word, amount),
{
    if amount == 0 {
        word
    } else {
        (word >> amount) | (word << (32 - amount))
    }
}

/// A PCG32 generator: one 64-bit state, owned by whoever draws from it.
pub struct Pcg32 {
    state: u64,
}

impl Pcg32 {
    /// The state the next draw is made from.
    pub closed spec fn state(&self) -> u64 {
        self.state
    }

    /// A generator seeded from the clock, as a thread makes one on first use.
    pub fn seeded() -> (generator: Pcg32)
        ensures
            exists|time_ns: u64| generator.state() == seed_state(time_ns),
    {
        Pcg32 { state: seed() }
    }

    /// A generator that starts in `state`; its draws are then fixed.
    pub fn from_state(state: u64) -> (generator: Pcg32)
        ensures
            generator.state() == state,
    {
        Pcg32 { state }
    }
}

/// Draws the next 32-bit value from `generator` and advances it by one step.
pub fn random(generator: &mut Pcg32) -> (value: u32)
    ensures
        value == output(old(generator).state()),
        final(generator).state() == advance(old(generator).state()),
{
    let oldstate: u64 = generator.state;
    generator.state = step(oldstate);
    let shifted: u64 = ((oldstate >> 18) ^ oldstate) >> 27;
    let amount: u64 = oldstate >> 59;
    assert(amount < 32) by (bit_vector)
        requires
            amount == oldstate >> 59,
    ;
    rotate(shifted as u32, amount as u32)
}

/// The linear congruential step never sends two states to one: the
/// multiplier is odd, so the step can be undone.
pub proof fn lemma_advance_injective(a: u64, b: u64)
    requires
        advance(a) == advance(b),
    ensures
        a == b,
{
    let w: int = 0x1_0000_0000_0000_0000;
    let m: int = MULTIPLIER as int;
    // The inverse of the multiplier modulo 2^64.
    let inverse: int = 13877824140714322085;
    let wraps: int = 4787856489426250814;
    assert(m * inverse == 1 + wraps * w);
    let x = a as int * m + INCREMENT as int;
    let y = b as int * m + INCREMENT as int;
    vstd::arithmetic::div_mod::lemma_fundamental_div_mod(x, w);
    vstd::arithmetic::div_mod::lemma_fundamental_div_mod(y, w);
    vstd::arithmetic::div_mod::lemma_mod_bound(x, w);
    vstd::arithmetic::div_mod::lemma_mod_bound(y, w);
    assert(x % w == y % w);
    let k = x / w - y / w;
    let diff = a as int - b as int;
    assert(diff * m == w * k) by (nonlinear_arith)
        requires
            x == w * (x / w) + x % w,
            y == w * (y / w) + y % w,
            x % w == y % w,
            x == a as int * m + INCREMENT as int,
            y == b as int * m + INCREMENT as int,
            diff == a as int - b as int,
            k == x / w - y / w,
    ;
    let t = k * inverse - diff * wraps;
    assert(diff == w * t) by (nonlinear_arith)
        requires
            diff * m == w * k,
            m * inverse == 1 + wraps * w,
            t == k * inverse - diff * wraps,
    ;
    assert(t == 0) by (nonlinear_arith)
        requires
            diff == w * t,
            -w < diff < w,
            w > 0,
    ;
}

/// Generators seeded at different clock readings start in different states.
pub proof fn lemma_seed_state_injective(first_ns: u64, second_ns: u64)
    requires
        seed_state(first_ns) == seed_state(second_ns),
    ensures
        first_ns == second_ns,
{
    lemma_advance_injective(
        vstd::wrapping::u64_specs::wrapping_add(advance(SEED_CONSTANT), first_ns),
        vstd::wrapping::u64_specs::wrapping_add(advance(SEED_CONSTANT), second_ns),
    );
}

/// A generator in state zero draws zero, the one value that even the
/// lowest threshold holds back.
pub proof fn lemma_output_zero_state()
    ensures
        output(0) == 0,
{
    assert(output(0) == 0) by (bit_vector);
}

/// Rotation moves every bit `amount` places down and brings the bits that
/// fall off back in at the top: bit `place` of the rotated word is bit
/// `place + amount`, counted modulo 32, of the word.
pub proof fn lemma_rotate_right_moves_bits(word: u32, amount: u32, place: u32)
    requires
        amount < 32,
        place < 32,
    ensures
        (rotate_right(word, amount) >> place) & 1 == (word >> ((place + amount) % 32)) & 1,
{
    if amount == 0 {
        assert((place + amount) % 32 == place);
    } else {
        let source: u32 = ((place + amount) % 32) as u32;
        assert((((word >> amount) | (word << ((32 - amount) as u32))) >> place) & 1 == (word
            >> source) & 1) by (bit_vector)
            requires
                0 < amount < 32,
                place < 32,
                source == (place + amount) % 32,
        ;
    }
}

} // verus!
