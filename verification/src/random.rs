//! The xorshift64* generator: reproducible test data and the draws of the sampler.

use vstd::prelude::*;

verus! {

/// The state after one step of the generator.
pub open spec fn stepped(s: u64) -> u64 {
    let a = s ^ (s >> 12);
    let b = a ^ (a << 25);
    b ^ (b >> 27)
}

/// The multiplier that scrambles a state into an output.
pub const SCRAMBLE: u64 = 0x2545F4914F6CDD1D;

/// The output that belongs to a state: the product, kept to 64 bits.
pub open spec fn scrambled(s: u64) -> u64 {
    ((s * SCRAMBLE) % 0x1_0000_0000_0000_0000) as u64
}

/// The state after `n` steps.
pub open spec fn state_after(seed: u64, n: nat) -> u64
    decreases n,
{
    if n == 0 {
        seed
    } else {
        stepped(state_after(seed, (n - 1) as nat))
    }
}

/// The upper 24 bits of an output.
pub open spec fn upper24(r: u64) -> int {
    r as int / 0x100_0000_0000
}

/// Steps the generator and returns its output.
pub fn next_u64(state: &mut u64) -> (r: u64)
    ensures
        *final(state) == stepped(*old(state)),
        r == scrambled(*final(state)),
{
    let mut s: u64 = *state;
    s = s ^ (s >> 12);
    s = s ^ (s << 25);
    s = s ^ (s >> 27);
    *state = s;
    s.wrapping_mul(SCRAMBLE)
}

/// Steps the generator and returns the upper 24 bits of its output: the numerator of a
/// uniform fraction of `2^24`.
pub fn next_fraction(state: &mut u64) -> (r: u32)
    ensures
        *final(state) == stepped(*old(state)),
        r == upper24(scrambled(*final(state))),
        r < 0x100_0000,
{
    let x: u64 = next_u64(state);
    assert(x >> 40 == x / 0x100_0000_0000) by (bit_vector);
    (x >> 40) as u32
}

/// Pseudo-random numbers of the interval from -1 up to 1, as numerators of fractions of
/// `2^23`. The same seed gives the same list.
pub fn pseudo_rand(n: usize, seed: u64) -> (v: Vec<i32>)
    ensures
        v@.len() == n,
        forall|i: int|
            0 <= i < n ==> #[trigger] v@[i] == upper24(
                scrambled(state_after(seed, (i + 1) as nat)),
            ) - 0x80_0000,
        forall|i: int| 0 <= i < n ==> -0x80_0000 <= #[trigger] v@[i] < 0x80_0000,
{
    let mut state: u64 = seed;
    let mut v: Vec<i32> = Vec::new();
    let mut i: usize = 0;
    while i < n
        invariant
            i <= n,
            v@.len() == i,
            state == state_after(seed, i as nat),
            forall|j: int|
                0 <= j < i ==> #[trigger] v@[j] == upper24(
                    scrambled(state_after(seed, (j + 1) as nat)),
                ) - 0x80_0000,
            forall|j: int| 0 <= j < i ==> -0x80_0000 <= #[trigger] v@[j] < 0x80_0000,
        decreases n - i,
    {
        let r: u32 = next_fraction(&mut state);
        v.push(r as i32 - 0x80_0000);
        i = i + 1;
    }
    v
}

proof fn lemma_step_nonzero(s: u64)
    requires
        s != 0,
    ensures
        stepped(s) != 0,
{
    let a = s ^ (s >> 12);
    let b = a ^ (a << 25);
    assert(s != 0 ==> s ^ (s >> 12) != 0) by (bit_vector);
    assert(a != 0 ==> a ^ (a << 25) != 0) by (bit_vector);
    assert(b != 0 ==> b ^ (b >> 27) != 0) by (bit_vector);
}

/// A generator that does not start at zero never reaches it; one that does stays there.
pub proof fn only_zero_is_stuck(seed: u64, n: nat)
    ensures
        state_after(seed, n) == 0 <==> seed == 0,
    decreases n,
{
    if n > 0 {
        let s = state_after(seed, (n - 1) as nat);
        only_zero_is_stuck(seed, (n - 1) as nat);
        if s != 0 {
            lemma_step_nonzero(s);
        } else {
            assert(0u64 >> 12 == 0 && 0u64 << 25 == 0 && 0u64 >> 27 == 0 && 0u64 ^ 0u64 == 0)
                by (bit_vector);
        }
    }
}

/// Different states step to different states, so seeds never fall together.
pub proof fn steps_keep_states_apart(a: u64, b: u64)
    requires
        a != b,
    ensures
        stepped(a) != stepped(b),
{
    let (a1, b1) = (a ^ (a >> 12), b ^ (b >> 12));
    let (a2, b2) = (a1 ^ (a1 << 25), b1 ^ (b1 << 25));
    assert(a != b ==> a ^ (a >> 12) != b ^ (b >> 12)) by (bit_vector);
    assert(a1 != b1 ==> a1 ^ (a1 << 25) != b1 ^ (b1 << 25)) by (bit_vector);
    assert(a2 != b2 ==> a2 ^ (a2 >> 27) != b2 ^ (b2 >> 27)) by (bit_vector);
}

/// A step is three xor-shifts: by 12 bits to the right, by 25 to the left and by 27 to the
/// right.
pub proof fn steps_shift_and_mix(s: u64)
    ensures
        stepped(s) == ({
            let a = s ^ (s / 4096);
            let b = a ^ ((a % 0x80_0000_0000) * 0x200_0000) as u64;
            b ^ (b / 0x800_0000)
        }),
{
    let a = s ^ (s >> 12);
    let b = a ^ (a << 25);
    assert(s >> 12 == s / 4096) by (bit_vector);
    assert(a << 25 == ((a % 0x80_0000_0000) * 0x200_0000) as u64) by (bit_vector);
    assert(b >> 27 == b / 0x800_0000) by (bit_vector);
}

} // verus!
