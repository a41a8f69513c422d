//! Sums of doubles on their bit patterns, in integer arithmetic.
//!
//! A finite double is a whole multiple of the smallest subnormal. The sum of
//! two is computed exactly as such a multiple and rounded once.

use vstd::arithmetic::div_mod::lemma_fundamental_div_mod;
use vstd::arithmetic::power2::{
    lemma2_to64, lemma2_to64_rest, lemma_pow2_adds, lemma_pow2_pos, lemma_pow2_strictly_increases,
    lemma_pow2_unfold, pow2,
};
use vstd::prelude::*;
use vstd::std_specs::bits::{axiom_u64_leading_zeros, u64_leading_zeros};

use crate::rounding::{
    lemma_bit_length_at_most, lemma_bit_length_exactly, lemma_digits_bound, lemma_round_absorbs,
    lemma_round_decomposed, lemma_scaled_is_zero,
};

verus! {

/// The sign bit of a double's bit pattern.
pub const SIGN: u64 = 0x8000_0000_0000_0000;

/// The bit pattern of positive infinity. The patterns below it are the
/// magnitudes of the finite doubles, in rising order.
pub const INFINITY: u64 = 0x7FF0_0000_0000_0000;

/// The bit pattern of the quiet NaN that sums return.
pub const NAN: u64 = 0x7FF8_0000_0000_0000;

/// Two to the 52: the weight of the exponent field in a bit pattern, and the
/// leading digit of a normal significand.
pub const HIDDEN: u64 = 0x0010_0000_0000_0000;

/// The bit pattern without its sign.
pub open spec fn magnitude(bits: u64) -> int {
    bits as int % SIGN as int
}

pub open spec fn is_negative(bits: u64) -> bool {
    bits >= SIGN
}

pub open spec fn is_nan(bits: u64) -> bool {
    magnitude(bits) > INFINITY
}

pub open spec fn is_infinite(bits: u64) -> bool {
    magnitude(bits) == INFINITY
}

/// The significand of a finite magnitude: the fraction field, with the
/// leading digit in front where the exponent field is not zero.
pub open spec fn significand(magnitude: int) -> int {
    if magnitude < HIDDEN {
        magnitude
    } else {
        HIDDEN + magnitude % HIDDEN as int
    }
}

/// The power of two that the significand of a finite magnitude counts, with
/// the smallest subnormal as the unit.
pub open spec fn scale(magnitude: int) -> nat {
    if magnitude < HIDDEN {
        0
    } else {
        (magnitude / HIDDEN as int - 1) as nat
    }
}

/// The number that a finite magnitude stands for, as a multiple of the
/// smallest subnormal.
pub open spec fn scaled(magnitude: int) -> int {
    significand(magnitude) * pow2(scale(magnitude))
}

/// The number that a finite bit pattern stands for, as a multiple of the
/// smallest subnormal.
pub open spec fn scaled_value(bits: u64) -> int {
    if is_negative(bits) {
        -scaled(magnitude(bits))
    } else {
        scaled(magnitude(bits))
    }
}

/// Number of binary digits of `n`.
pub open spec fn bit_length(n: int) -> nat
    decreases n,
{
    if n <= 0 {
        0
    } else {
        1 + bit_length(n / 2)
    }
}

/// Number of binary digits of `exact` beyond the 53 that a significand
/// holds.
pub open spec fn dropped_digits(exact: int) -> nat {
    if bit_length(exact) <= 53 {
        0
    } else {
        (bit_length(exact) - 53) as nat
    }
}

/// Whether a number that was cut to `kept * 2^drop`, losing `lost`, rounds
/// up: it does where the loss is more than half a unit of `kept`, and where
/// it is exactly half and `kept` is odd.
pub open spec fn rounds_up(kept: int, lost: int, drop: nat) -> bool {
    2 * lost > pow2(drop) || (2 * lost == pow2(drop) && kept % 2 == 1)
}

/// The magnitude of the double nearest to `exact` multiples of the smallest
/// subnormal; of two that are equally near, the one with the even
/// significand; infinity where the nearest would lie beyond the largest
/// finite double.
///
/// The 53 leading digits of `exact` are kept. With `drop` digits dropped the
/// exponent field is `drop + 1`, and a carry out of the significand runs
/// into it.
pub open spec fn round_to_nearest(exact: int) -> int {
    let drop = dropped_digits(exact);
    let kept = exact / pow2(drop) as int;
    let lost = exact % pow2(drop) as int;
    clamped(
        drop * HIDDEN + kept + if rounds_up(kept, lost, drop) {
            1int
        } else {
            0int
        },
    )
}

/// What a rounded magnitude that lies beyond the finite ones becomes.
pub open spec fn clamped(rounded: int) -> int {
    if rounded >= INFINITY {
        INFINITY as int
    } else {
        rounded
    }
}

/// The bit pattern of the sum of two doubles given by their bit patterns,
/// rounded to nearest, ties to even.
///
/// A NaN operand gives NaN, and so do infinities of opposite signs. A sum
/// that is exactly zero is negative only where both operands are.
pub open spec fn number_sum(x: u64, y: u64) -> u64 {
    if is_nan(x) || is_nan(y) {
        NAN
    } else if is_infinite(x) {
        if is_infinite(y) && is_negative(x) != is_negative(y) {
            NAN
        } else {
            x
        }
    } else if is_infinite(y) {
        y
    } else {
        let exact = scaled_value(x) + scaled_value(y);
        if exact == 0 {
            if is_negative(x) && is_negative(y) {
                SIGN
            } else {
                0
            }
        } else if exact > 0 {
            round_to_nearest(exact) as u64
        } else {
            (SIGN + round_to_nearest(-exact)) as u64
        }
    }
}

/// A one shifted left is a power of two.
proof fn lemma_shifted_one(exponent: u32)
    requires
        exponent < 127,
    ensures
        1u128 << exponent == pow2(exponent as nat),
    decreases exponent,
{
    if exponent == 0 {
        assert(1u128 << 0u32 == 1u128) by (bit_vector);
        lemma2_to64();
    } else {
        let lower = (exponent - 1) as u32;
        lemma_shifted_one(lower);
        assert(1u128 << exponent == 2u128 * (1u128 << lower)) by (bit_vector)
            requires
                0 < exponent < 127,
                lower == exponent - 1,
        ;
        lemma_pow2_unfold(exponent as nat);
    }
}

/// Two to the `exponent`.
fn power_of_two(exponent: u32) -> (power: u128)
    requires
        exponent < 127,
    ensures
        power == pow2(exponent as nat),
{
    proof {
        lemma_shifted_one(exponent);
    }
    1u128 << exponent
}

/// The binary digits of a machine word are those that its leading zeros
/// leave.
proof fn lemma_leading_zeros(word: u64)
    ensures
        bit_length(word as int) == 64 - u64_leading_zeros(word),
    decreases word,
{
    reveal(u64_leading_zeros);
    if word != 0 {
        lemma_leading_zeros(word / 2);
    }
}

/// Number of binary digits of `word`.
fn digits_of_word(word: u64) -> (count: u32)
    ensures
        count == bit_length(word as int),
        count <= 64,
{
    proof {
        lemma_leading_zeros(word);
        axiom_u64_leading_zeros(word);
    }
    64 - word.leading_zeros()
}

/// Number of binary digits of `value`.
fn digits(value: u128) -> (count: u32)
    ensures
        count == bit_length(value as int),
        count <= 128,
{
    let high = (value / 0x1_0000_0000_0000_0000) as u64;
    if high == 0 {
        digits_of_word(value as u64)
    } else {
        let count = digits_of_word(high);
        proof {
            lemma2_to64();
            lemma_digits_bound(high as int);
            lemma_pow2_adds((count - 1) as nat, 64);
            lemma_pow2_adds(count as nat, 64);
            lemma_bit_length_exactly(value as int, (count + 64) as nat);
        }
        count + 64
    }
}

/// The significand and the scale of a finite magnitude.
fn decompose(magnitude: u64) -> (parts: (u64, u64))
    requires
        magnitude < INFINITY,
    ensures
        parts.0 == significand(magnitude as int),
        parts.1 == scale(magnitude as int),
        parts.0 < 2 * HIDDEN,
        parts.1 <= 2045,
        parts.1 > 0 ==> parts.0 >= HIDDEN,
        magnitude == parts.1 * HIDDEN + parts.0,
{
    if magnitude < HIDDEN {
        (magnitude, 0)
    } else {
        (HIDDEN + magnitude % HIDDEN, magnitude / HIDDEN - 1)
    }
}

/// Rounds `total * 2^scale` multiples of the smallest subnormal to the
/// magnitude of the nearest double.
fn round_scaled(total: u128, scale: u64) -> (bits: u64)
    requires
        total < pow2(117),
        scale <= 2045,
    ensures
        bits == round_to_nearest(total * pow2(scale as nat)),
        bits <= INFINITY,
{
    let ghost exact = total * pow2(scale as nat);
    proof {
        lemma2_to64();
        lemma2_to64_rest();
        lemma_pow2_pos(scale as nat);
    }
    if total == 0 {
        proof {
            assert(exact == 0) by (nonlinear_arith)
                requires
                    exact == total * pow2(scale as nat),
                    total == 0,
            ;
            lemma_round_decomposed(0, 0, 0, 0);
        }
        return 0;
    }
    let count = digits(total) as u64;
    proof {
        lemma_bit_length_at_most(total as int, 117);
        if count == 0 {
            assert(bit_length(total as int) == 1 + bit_length(total as int / 2));
        }
        lemma_digits_bound(total as int);
    }
    assert(1 <= count <= 117);
    assert(pow2((count - 1) as nat) <= total < pow2(count as nat));
    let length = count + scale;
    if length <= 53 {
        let unit = power_of_two(scale as u32);
        proof {
            lemma_pow2_adds(count as nat, scale as nat);
            if length < 53 {
                lemma_pow2_strictly_increases(length as nat, 53);
            }
            assert(total * unit < pow2(count as nat) * pow2(scale as nat)) by (nonlinear_arith)
                requires
                    total < pow2(count as nat),
                    unit == pow2(scale as nat),
                    unit > 0,
            ;
            lemma_round_decomposed(exact, 0, exact, 0);
        }
        return (total * unit) as u64;
    }
    let drop = length - 53;
    let rounded: u64;
    if drop <= scale {
        let unit = power_of_two((scale - drop) as u32);
        let ghost shift = (scale - drop) as nat;
        proof {
            lemma_pow2_adds(shift, drop as nat);
            lemma_pow2_adds((count - 1) as nat, shift);
            lemma_pow2_adds(count as nat, shift);
            lemma_pow2_pos(shift);
            assert(pow2(52) <= total * pow2(shift)) by (nonlinear_arith)
                requires
                    pow2((count - 1) as nat) <= total,
                    pow2(52) == pow2((count - 1) as nat) * pow2(shift),
                    pow2(shift) > 0,
            ;
            assert(total * pow2(shift) < pow2(53)) by (nonlinear_arith)
                requires
                    total < pow2(count as nat),
                    pow2(53) == pow2(count as nat) * pow2(shift),
                    pow2(shift) > 0,
            ;
        }
        let kept = total * unit;
        proof {
            assert(exact == kept * pow2(drop as nat)) by (nonlinear_arith)
                requires
                    exact == total * pow2(scale as nat),
                    kept == total * pow2(shift),
                    pow2(scale as nat) == pow2(shift) * pow2(drop as nat),
            ;
            lemma_pow2_pos(drop as nat);
            lemma_round_decomposed(exact, drop as nat, kept as int, 0);
        }
        rounded = drop * HIDDEN + kept as u64;
    } else {
        let cut = drop - scale;
        let unit = power_of_two(cut as u32);
        let kept = total / unit;
        let lost = total % unit;
        let up = lost > unit / 2 || (lost == unit / 2 && kept % 2 == 1);
        proof {
            lemma_pow2_adds(cut as nat, scale as nat);
            lemma_pow2_adds(52, cut as nat);
            lemma_pow2_adds(53, cut as nat);
            lemma_pow2_unfold(cut as nat);
            lemma_pow2_pos(cut as nat);
            assert(total == kept * unit + lost) by {
                lemma_fundamental_div_mod(total as int, unit as int);
                assert(unit * kept == kept * unit) by (nonlinear_arith);
            }
            assert(pow2(52) <= kept) by (nonlinear_arith)
                requires
                    pow2(52) * unit <= total,
                    total == kept * unit + lost,
                    0 <= lost < unit,
                    0 <= kept,
            ;
            assert(kept < pow2(53)) by (nonlinear_arith)
                requires
                    total < pow2(53) * unit,
                    total == kept * unit + lost,
                    0 <= lost,
                    unit > 0,
            ;
            let lost_exact = lost * pow2(scale as nat);
            assert(exact == kept * pow2(drop as nat) + lost_exact) by (nonlinear_arith)
                requires
                    exact == total * pow2(scale as nat),
                    total == kept * unit + lost,
                    pow2(drop as nat) == unit * pow2(scale as nat),
                    lost_exact == lost * pow2(scale as nat),
            ;
            assert(0 <= lost_exact < pow2(drop as nat)) by (nonlinear_arith)
                requires
                    0 <= lost < unit,
                    pow2(drop as nat) == unit * pow2(scale as nat),
                    lost_exact == lost * pow2(scale as nat),
                    pow2(scale as nat) > 0,
            ;
            assert(up == rounds_up(kept as int, lost_exact, drop as nat)) by (nonlinear_arith)
                requires
                    up == (2 * lost > unit || (2 * lost == unit && kept % 2 == 1)),
                    pow2(drop as nat) == unit * pow2(scale as nat),
                    lost_exact == lost * pow2(scale as nat),
                    pow2(scale as nat) > 0,
                    rounds_up(kept as int, lost_exact, drop as nat) == (2 * lost_exact > pow2(
                        drop as nat,
                    ) || (2 * lost_exact == pow2(drop as nat) && kept % 2 == 1)),
            ;
            lemma_round_decomposed(exact, drop as nat, kept as int, lost_exact);
        }
        rounded = drop * HIDDEN + kept as u64 + if up {
            1
        } else {
            0
        };
    }
    if rounded >= INFINITY {
        INFINITY
    } else {
        rounded
    }
}

/// The sum or the difference of two finite magnitudes, rounded.
fn combine_magnitudes(larger: u64, smaller: u64, subtract: bool) -> (bits: u64)
    requires
        smaller <= larger < INFINITY,
        subtract ==> smaller < larger,
    ensures
        !subtract ==> bits == round_to_nearest(scaled(larger as int) + scaled(smaller as int)),
        subtract ==> bits == round_to_nearest(scaled(larger as int) - scaled(smaller as int)),
        subtract ==> scaled(larger as int) > scaled(smaller as int),
        bits <= INFINITY,
{
    let (sig_larger, scale_larger) = decompose(larger);
    let (sig_smaller, scale_smaller) = decompose(smaller);
    assert(scale_smaller <= scale_larger);
    let gap = scale_larger - scale_smaller;
    proof {
        lemma2_to64();
        lemma2_to64_rest();
        lemma_pow2_pos(scale_smaller as nat);
        lemma_pow2_pos(gap as nat);
        lemma_pow2_adds(gap as nat, scale_smaller as nat);
        if gap > 0 {
            lemma_pow2_unfold(gap as nat);
            lemma_pow2_pos((gap - 1) as nat);
        }
        assert(sig_larger * pow2(scale_larger as nat) == sig_larger * pow2(gap as nat) * pow2(
            scale_smaller as nat,
        )) by (nonlinear_arith)
            requires
                pow2(scale_larger as nat) == pow2(gap as nat) * pow2(scale_smaller as nat),
        ;
        assert(subtract ==> sig_larger * pow2(gap as nat) > sig_smaller) by (nonlinear_arith)
            requires
                gap == 0 ==> pow2(gap as nat) == 1 && sig_larger > sig_smaller || !subtract,
                gap > 0 ==> pow2(gap as nat) >= 2 && sig_larger >= HIDDEN,
                sig_smaller < 2 * HIDDEN,
                sig_larger >= 0,
        ;
        assert(subtract ==> scaled(larger as int) > scaled(smaller as int)) by (nonlinear_arith)
            requires
                subtract ==> sig_larger * pow2(gap as nat) > sig_smaller,
                scaled(larger as int) == sig_larger * pow2(gap as nat) * pow2(
                    scale_smaller as nat,
                ),
                scaled(smaller as int) == sig_smaller * pow2(scale_smaller as nat),
                pow2(scale_smaller as nat) > 0,
        ;
    }
    if gap >= 64 {
        proof {
            lemma_pow2_adds(53, scale_smaller as nat);
            if scale_smaller + 53 < scale_larger - 3 {
                lemma_pow2_strictly_increases(
                    (scale_smaller + 53) as nat,
                    (scale_larger - 3) as nat,
                );
            }
            assert(scaled(smaller as int) < pow2(53) * pow2(scale_smaller as nat))
                by (nonlinear_arith)
                requires
                    scaled(smaller as int) == sig_smaller * pow2(scale_smaller as nat),
                    sig_smaller < pow2(53),
                    pow2(scale_smaller as nat) > 0,
            ;
            assert(scaled(smaller as int) >= 0) by (nonlinear_arith)
                requires
                    scaled(smaller as int) == sig_smaller * pow2(scale_smaller as nat),
                    sig_smaller >= 0,
                    pow2(scale_smaller as nat) > 0,
            ;
            lemma_round_absorbs(sig_larger as int, scale_larger as nat, scaled(smaller as int));
        }
        return larger;
    }
    let unit = power_of_two(gap as u32);
    proof {
        lemma_pow2_adds(53, gap as nat);
        lemma_pow2_adds(53, 63);
        lemma_pow2_adds(52, 64);
        lemma_pow2_adds(53, 64);
        if gap < 63 {
            lemma_pow2_strictly_increases(gap as nat, 63);
        }
        assert(sig_larger * unit < pow2(53) * pow2(63)) by (nonlinear_arith)
            requires
                0 <= sig_larger < pow2(53),
                0 < unit <= pow2(63),
        ;
    }
    let aligned = sig_larger as u128 * unit;
    let total = if subtract {
        aligned - sig_smaller as u128
    } else {
        aligned + sig_smaller as u128
    };
    proof {
        assert(total * pow2(scale_smaller as nat) == if subtract {
            scaled(larger as int) - scaled(smaller as int)
        } else {
            scaled(larger as int) + scaled(smaller as int)
        }) by (nonlinear_arith)
            requires
                total == if subtract {
                    aligned - sig_smaller
                } else {
                    aligned + sig_smaller
                },
                aligned == sig_larger * pow2(gap as nat),
                scaled(larger as int) == sig_larger * pow2(gap as nat) * pow2(
                    scale_smaller as nat,
                ),
                scaled(smaller as int) == sig_smaller * pow2(scale_smaller as nat),
        ;
    }
    round_scaled(total, scale_smaller)
}

/// The sum of two doubles given by their bit patterns, as a bit pattern.
pub fn add_numbers(x: u64, y: u64) -> (sum: u64)
    ensures
        sum == number_sum(x, y),
{
    let magnitude_x = x % SIGN;
    let magnitude_y = y % SIGN;
    let negative_x = x >= SIGN;
    let negative_y = y >= SIGN;
    if magnitude_x > INFINITY || magnitude_y > INFINITY {
        return NAN;
    }
    if magnitude_x == INFINITY {
        return if magnitude_y == INFINITY && negative_x != negative_y {
            NAN
        } else {
            x
        };
    }
    if magnitude_y == INFINITY {
        return y;
    }
    proof {
        lemma_scaled_is_zero(magnitude_x as int);
        lemma_scaled_is_zero(magnitude_y as int);
        lemma2_to64();
        lemma_round_decomposed(0, 0, 0, 0);
    }
    if negative_x == negative_y {
        let bits = if magnitude_x >= magnitude_y {
            combine_magnitudes(magnitude_x, magnitude_y, false)
        } else {
            combine_magnitudes(magnitude_y, magnitude_x, false)
        };
        if negative_x {
            SIGN + bits
        } else {
            bits
        }
    } else if magnitude_x == magnitude_y {
        0
    } else if magnitude_x > magnitude_y {
        let bits = combine_magnitudes(magnitude_x, magnitude_y, true);
        if negative_x {
            SIGN + bits
        } else {
            bits
        }
    } else {
        let bits = combine_magnitudes(magnitude_y, magnitude_x, true);
        if negative_y {
            SIGN + bits
        } else {
            bits
        }
    }
}

} // verus!
