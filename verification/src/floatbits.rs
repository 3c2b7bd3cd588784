//! Order and magnitude of single-precision numbers, read off their bit patterns.
//!
//! Weights, activations and logits pass through the library as the 32-bit
//! patterns of IEEE 754 single-precision numbers. Comparing two such numbers
//! needs no arithmetic: the magnitude is the pattern without its sign bit, and
//! patterns above the infinity are not numbers.

use vstd::prelude::*;

verus! {

/// Pattern of positive infinity.
pub const INFINITY: u32 = 0x7f80_0000;

/// The sign bit.
pub const SIGN: u32 = 0x8000_0000;

/// The pattern without its sign: patterns of numbers are ordered by magnitude as
/// integers are.
pub open spec fn magnitude(b: u32) -> int {
    if b >= SIGN {
        b - SIGN
    } else {
        b as int
    }
}

/// Not a number.
pub open spec fn is_nan(b: u32) -> bool {
    magnitude(b) > INFINITY
}

/// Place of a number in the order of numbers; both zeros have the same place.
pub open spec fn rank(b: u32) -> int {
    if b >= SIGN {
        -magnitude(b)
    } else {
        magnitude(b)
    }
}

/// Place of a pattern in the total order of all patterns, in which negative zero
/// comes before positive zero and a not-a-number beyond the infinity of its sign.
pub open spec fn total_rank(b: u32) -> int {
    if b >= SIGN {
        -magnitude(b) - 1
    } else {
        magnitude(b)
    }
}

/// `a > b` as numbers; false where either is not a number.
pub open spec fn greater(a: u32, b: u32) -> bool {
    !is_nan(a) && !is_nan(b) && rank(a) > rank(b)
}

/// `|a| > |b|`; false where either is not a number.
pub open spec fn greater_magnitude(a: u32, b: u32) -> bool {
    !is_nan(a) && !is_nan(b) && magnitude(a) > magnitude(b)
}

/// Numbers of one sign are ordered as their patterns are, the negative ones the other way
/// round, and a negative number is below a positive one unless both are zero. A pattern above
/// that of infinity is no number, whatever its sign.
pub proof fn numbers_go_by_sign_and_pattern(a: u32, b: u32)
    ensures
        a <= 0x7f80_0000 && b <= 0x7f80_0000 ==> (greater(a, b) <==> a > b),
        0x8000_0000 <= a <= 0xff80_0000 && 0x8000_0000 <= b <= 0xff80_0000 ==> (greater(a, b) <==> a
            < b),
        a <= 0x7f80_0000 && 0x8000_0000 <= b <= 0xff80_0000 ==> (greater(a, b) <==> !(a == 0 && b
            == 0x8000_0000)) && !greater(b, a),
        0x7f80_0000 < a < 0x8000_0000 || 0xff80_0000 < a ==> is_nan(a) && !greater(a, b)
            && !greater(b, a),
{
}

/// In the order of all patterns, every pattern with the sign is below every one without it,
/// and those with the sign are ordered the other way round.
pub proof fn patterns_go_by_sign(a: u32, b: u32)
    ensures
        a < 0x8000_0000 && b < 0x8000_0000 ==> (total_rank(a) < total_rank(b) <==> a < b),
        a >= 0x8000_0000 && b >= 0x8000_0000 ==> (total_rank(a) < total_rank(b) <==> a > b),
        a >= 0x8000_0000 && b < 0x8000_0000 ==> total_rank(a) < total_rank(b),
{
}

/// The pattern without its sign.
pub fn abs_bits(b: u32) -> (r: u32)
    ensures
        r == magnitude(b),
{
    if b >= SIGN {
        b - SIGN
    } else {
        b
    }
}

/// True for patterns that are not numbers.
pub fn nan(b: u32) -> (r: bool)
    ensures
        r == is_nan(b),
{
    abs_bits(b) > INFINITY
}

/// True for either zero.
pub fn is_zero(b: u32) -> (r: bool)
    ensures
        r == (magnitude(b) == 0),
{
    abs_bits(b) == 0
}

/// Place of a number in the order of numbers.
pub fn rank_of(b: u32) -> (r: i64)
    ensures
        r == rank(b),
{
    if b >= SIGN {
        -((b - SIGN) as i64)
    } else {
        b as i64
    }
}

/// Place of a pattern in the total order of all patterns.
pub fn total_rank_of(b: u32) -> (r: i64)
    ensures
        r == total_rank(b),
{
    if b >= SIGN {
        -((b - SIGN) as i64) - 1
    } else {
        b as i64
    }
}

/// `a > b` as numbers.
pub fn gt(a: u32, b: u32) -> (r: bool)
    ensures
        r == greater(a, b),
{
    !nan(a) && !nan(b) && rank_of(a) > rank_of(b)
}

/// `|a| > |b|` as numbers.
pub fn abs_gt(a: u32, b: u32) -> (r: bool)
    ensures
        r == greater_magnitude(a, b),
{
    !nan(a) && !nan(b) && abs_bits(a) > abs_bits(b)
}

/// The element of largest magnitude, sign kept: the first of them where several
/// are equally large, zero where no element is a number other than zero.
pub open spec fn signed_absmax(s: Seq<u32>) -> u32
    decreases s.len(),
{
    if s.len() == 0 {
        0
    } else {
        let m = signed_absmax(s.drop_last());
        if greater_magnitude(s.last(), m) {
            s.last()
        } else {
            m
        }
    }
}

/// What `signed_absmax` picks: an upper bound of all magnitudes that is itself an
/// element, or zero.
pub proof fn absmax_bounds_every_element(s: Seq<u32>)
    ensures
        !is_nan(signed_absmax(s)),
        forall|i: int|
            0 <= i < s.len() && !is_nan(#[trigger] s[i]) ==> magnitude(s[i]) <= magnitude(
                signed_absmax(s),
            ),
        signed_absmax(s) == 0 || s.contains(signed_absmax(s)),
    decreases s.len(),
{
    if s.len() > 0 {
        let t = s.drop_last();
        absmax_bounds_every_element(t);
        assert forall|i: int| 0 <= i < s.len() && !is_nan(#[trigger] s[i]) implies magnitude(s[i])
            <= magnitude(signed_absmax(s)) by {
            if i < t.len() {
                assert(t[i] == s[i]);
            }
        }
        if t.contains(signed_absmax(t)) {
            let k = choose|k: int| 0 <= k < t.len() && t[k] == signed_absmax(t);
            assert(s[k] == signed_absmax(t));
        }
        assert(s[s.len() - 1] == s.last());
    }
}

/// The element of largest magnitude is the first of those that are as large: all before it
/// are smaller in magnitude, or no numbers.
pub proof fn absmax_is_the_first_of_the_largest(s: Seq<u32>)
    ensures
        signed_absmax(s) != 0 ==> exists|k: int|
            {
                &&& 0 <= k < s.len()
                &&& #[trigger] s[k] == signed_absmax(s)
                &&& forall|i: int|
                    0 <= i < k ==> is_nan(#[trigger] s[i]) || magnitude(s[i]) < magnitude(s[k])
            },
    decreases s.len(),
{
    if s.len() > 0 {
        let t = s.drop_last();
        absmax_is_the_first_of_the_largest(t);
        absmax_bounds_every_element(t);
        let m = signed_absmax(t);
        if greater_magnitude(s.last(), m) {
            let k = s.len() - 1;
            assert(s[k] == signed_absmax(s));
            assert forall|i: int| 0 <= i < k implies is_nan(#[trigger] s[i]) || magnitude(s[i])
                < magnitude(s[k]) by {
                assert(t[i] == s[i]);
            }
        } else if m != 0 {
            let k = choose|k: int|
                {
                    &&& 0 <= k < t.len()
                    &&& #[trigger] t[k] == m
                    &&& forall|i: int|
                        0 <= i < k ==> is_nan(#[trigger] t[i]) || magnitude(t[i]) < magnitude(t[k])
                };
            assert(s[k] == m);
            assert forall|i: int| 0 <= i < k implies is_nan(#[trigger] s[i]) || magnitude(s[i])
                < magnitude(s[k]) by {
                assert(t[i] == s[i]);
            }
        }
    }
}

/// First-index maximum of the logits, with the tie-break of the device kernels:
/// zero where no element is above negative infinity.
pub open spec fn is_argmax(s: Seq<u32>, k: int) -> bool {
    ||| {
        &&& 0 <= k < s.len()
        &&& !is_nan(s[k])
        &&& rank(s[k]) > -INFINITY
        &&& forall|i: int|
            0 <= i < s.len() && !is_nan(#[trigger] s[i]) ==> rank(s[i]) <= rank(s[k])
        &&& forall|i: int| 0 <= i < k && !is_nan(#[trigger] s[i]) ==> rank(s[i]) < rank(s[k])
    }
    ||| {
        &&& k == 0
        &&& forall|i: int| 0 <= i < s.len() && !is_nan(#[trigger] s[i]) ==> rank(s[i]) <= -INFINITY
    }
}

/// Logits have one argmax only.
pub proof fn argmax_is_unique(s: Seq<u32>, j: int, k: int)
    requires
        is_argmax(s, j),
        is_argmax(s, k),
    ensures
        j == k,
{
}

/// No logit is greater than the one at the argmax, and it is greater than every number before
/// it: of equal logits the first is chosen. Where no logit is a number above negative infinity,
/// the first place is.
pub proof fn argmax_is_the_first_of_the_greatest(s: Seq<u32>, k: int, i: int)
    requires
        is_argmax(s, k),
        0 <= i < s.len(),
    ensures
        (exists|j: int| 0 <= j < s.len() && greater(#[trigger] s[j], 0xff80_0000)) ==> {
            &&& 0 <= k < s.len()
            &&& greater(s[k], 0xff80_0000)
            &&& !greater(s[i], s[k])
            &&& i < k && !is_nan(s[i]) ==> greater(s[k], s[i])
        },
        !(exists|j: int| 0 <= j < s.len() && greater(#[trigger] s[j], 0xff80_0000)) ==> k == 0,
{
}

/// The index of the argmax.
pub open spec fn argmax_index(s: Seq<u32>) -> int {
    choose|k: int| is_argmax(s, k)
}

/// First-index argmax, as a token id.
pub fn argmax(logits: &[u32]) -> (k: u32)
    ensures
        is_argmax(logits@, argmax_index(logits@)),
        k == argmax_index(logits@) as u32,
{
    let mut best: u32 = 0xff80_0000;
    let mut best_i: usize = 0;
    let mut i: usize = 0;
    while i < logits.len()
        invariant
            i <= logits.len(),
            !is_nan(best),
            rank(best) >= -INFINITY,
            rank(best) == -INFINITY ==> best_i == 0,
            rank(best) > -INFINITY ==> best_i < i && logits@[best_i as int] == best,
            forall|j: int|
                0 <= j < i && !is_nan(#[trigger] logits@[j]) ==> rank(logits@[j]) <= rank(best),
            forall|j: int|
                0 <= j < best_i && !is_nan(#[trigger] logits@[j]) ==> rank(logits@[j]) < rank(best),
        decreases logits.len() - i,
    {
        if gt(logits[i], best) {
            best = logits[i];
            best_i = i;
        }
        i = i + 1;
    }
    proof {
        assert(is_argmax(logits@, best_i as int));
        argmax_is_unique(logits@, best_i as int, argmax_index(logits@));
    }
    best_i as u32
}

} // verus!
