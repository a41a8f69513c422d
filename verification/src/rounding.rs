//! What rounding to the nearest double comes to, and why it is the nearest.

use vstd::arithmetic::div_mod::{lemma_fundamental_div_mod, lemma_fundamental_div_mod_converse};
use vstd::arithmetic::power2::{
    lemma2_to64, lemma2_to64_rest, lemma_pow2_adds, lemma_pow2_pos, lemma_pow2_strictly_increases,
    lemma_pow2_unfold, pow2,
};
use vstd::prelude::*;

use crate::number::{
    bit_length, clamped, dropped_digits, is_nan, magnitude, number_sum, round_to_nearest,
    rounds_up, scale, scaled, significand, HIDDEN, INFINITY, SIGN,
};

verus! {

/// A number with `digits` binary digits lies from `2^(digits - 1)` up to,
/// but not, `2^digits`.
pub proof fn lemma_digits_bound(n: int)
    requires
        n > 0,
    ensures
        pow2((bit_length(n) - 1) as nat) <= n < pow2(bit_length(n)),
    decreases n,
{
    lemma2_to64();
    if n == 1 {
        assert(bit_length(1) == 1 + bit_length(0));
    } else {
        lemma_digits_bound(n / 2);
        lemma_pow2_unfold(bit_length(n));
        lemma_pow2_unfold((bit_length(n) - 1) as nat);
    }
}

/// A number below `2^digits` has at most `digits` binary digits.
pub proof fn lemma_bit_length_at_most(n: int, digits: nat)
    requires
        n < pow2(digits),
    ensures
        bit_length(n) <= digits,
    decreases digits,
{
    if n > 0 {
        if digits == 0 {
            lemma2_to64();
        } else {
            lemma_pow2_unfold(digits);
            lemma_bit_length_at_most(n / 2, (digits - 1) as nat);
        }
    }
}

/// A number from `2^(digits - 1)` up to, but not, `2^digits` has `digits`
/// binary digits.
pub proof fn lemma_bit_length_exactly(n: int, digits: nat)
    requires
        digits >= 1,
        pow2((digits - 1) as nat) <= n < pow2(digits),
    ensures
        bit_length(n) == digits,
    decreases digits,
{
    lemma_pow2_pos((digits - 1) as nat);
    if digits == 1 {
        lemma2_to64();
        assert(n == 1);
        assert(bit_length(1) == 1 + bit_length(0));
    } else {
        lemma_pow2_unfold(digits);
        lemma_pow2_unfold((digits - 1) as nat);
        lemma_bit_length_exactly(n / 2, (digits - 1) as nat);
    }
}

/// Rounding, from a cut of `exact` into its 53 leading digits and the rest.
pub proof fn lemma_round_decomposed(exact: int, drop: nat, kept: int, lost: int)
    requires
        exact == kept * pow2(drop) + lost,
        0 <= lost < pow2(drop),
        0 <= kept,
        kept < 2 * HIDDEN,
        drop > 0 ==> kept >= HIDDEN,
    ensures
        round_to_nearest(exact) == clamped(
            drop * HIDDEN + kept + if rounds_up(kept, lost, drop) {
                1int
            } else {
                0int
            },
        ),
{
    lemma2_to64();
    lemma2_to64_rest();
    lemma_pow2_pos(drop);
    if drop == 0 {
        assert(lost == 0);
        assert(exact == kept) by (nonlinear_arith)
            requires
                exact == kept * pow2(drop) + lost,
                pow2(drop) == 1,
                lost == 0,
        ;
        lemma_bit_length_at_most(exact, 53);
        assert(exact / 1 == exact);
        assert(exact % 1 == 0);
    } else {
        lemma_pow2_adds(52, drop);
        lemma_pow2_adds(53, drop);
        assert(pow2(52) * pow2(drop) <= exact) by (nonlinear_arith)
            requires
                exact == kept * pow2(drop) + lost,
                kept >= pow2(52),
                pow2(drop) > 0,
                lost >= 0,
        ;
        assert(exact < pow2(53) * pow2(drop)) by (nonlinear_arith)
            requires
                exact == kept * pow2(drop) + lost,
                kept + 1 <= pow2(53),
                lost < pow2(drop),
        ;
        lemma_bit_length_exactly(exact, 53 + drop);
        lemma_fundamental_div_mod_converse(exact, pow2(drop) as int, kept, lost);
    }
}

/// A number that lies within an eighth of a unit of `sig * 2^scale` rounds
/// to the double with that significand and scale.
pub proof fn lemma_round_absorbs(sig: int, scale: nat, delta: int)
    requires
        HIDDEN <= sig < 2 * HIDDEN,
        3 <= scale <= 2045,
        0 <= delta < pow2((scale - 3) as nat),
    ensures
        round_to_nearest(sig * pow2(scale) + delta) == scale * HIDDEN + sig,
        round_to_nearest(sig * pow2(scale) - delta) == scale * HIDDEN + sig,
{
    let unit = pow2(scale) as int;
    let half = pow2((scale - 1) as nat) as int;
    lemma_pow2_unfold(scale);
    lemma_pow2_unfold((scale - 1) as nat);
    lemma_pow2_unfold((scale - 2) as nat);
    assert(unit == 2 * half);
    assert(8 * delta < unit);
    lemma_round_decomposed(sig * unit + delta, scale, sig, delta);
    if delta == 0 {
    } else if sig > HIDDEN {
        assert(sig * unit - delta == (sig - 1) * unit + (unit - delta)) by (nonlinear_arith);
        lemma_round_decomposed(sig * unit - delta, scale, sig - 1, unit - delta);
    } else {
        assert(sig * unit - delta == (2 * sig - 1) * half + (half - delta)) by (nonlinear_arith)
            requires
                unit == 2 * half,
        ;
        lemma_round_decomposed(
            sig * unit - delta,
            (scale - 1) as nat,
            2 * sig - 1,
            half - delta,
        );
    }
}

/// Only the magnitude of zero stands for zero.
pub proof fn lemma_scaled_is_zero(magnitude: int)
    requires
        0 <= magnitude < INFINITY,
    ensures
        scaled(magnitude) >= 0,
        scaled(magnitude) == 0 <==> magnitude == 0,
{
    lemma_pow2_pos(scale(magnitude));
    assert(significand(magnitude) >= 0);
    assert(significand(magnitude) == 0 <==> magnitude == 0);
    assert(scaled(magnitude) >= 0 && (scaled(magnitude) == 0 <==> significand(magnitude) == 0))
        by (nonlinear_arith)
        requires
            scaled(magnitude) == significand(magnitude) * pow2(scale(magnitude)),
            significand(magnitude) >= 0,
            pow2(scale(magnitude)) > 0,
    ;
}

/// How far apart two numbers lie.
pub open spec fn distance(a: int, b: int) -> int {
    if a >= b {
        a - b
    } else {
        b - a
    }
}

/// The cut that rounding makes: the digits kept are at most 53, and they
/// are 53 with a leading one where any digit is dropped.
pub proof fn lemma_cut(exact: int)
    requires
        exact >= 0,
    ensures
        exact == (exact / (pow2(dropped_digits(exact)) as int)) * pow2(dropped_digits(exact)) + (
        exact % (pow2(dropped_digits(exact)) as int)),
        0 <= (exact % (pow2(dropped_digits(exact)) as int)) < pow2(dropped_digits(exact)),
        0 <= (exact / (pow2(dropped_digits(exact)) as int)) < 2 * HIDDEN,
        dropped_digits(exact) > 0 ==> (exact / (pow2(dropped_digits(exact)) as int)) >= HIDDEN,
{
    let drop = dropped_digits(exact);
    let unit = pow2(drop) as int;
    let kept = exact / unit;
    let lost = exact % unit;
    lemma2_to64();
    lemma2_to64_rest();
    lemma_pow2_pos(drop);
    lemma_fundamental_div_mod(exact, unit);
    assert(unit * kept == kept * unit) by (nonlinear_arith);
    if exact > 0 {
        let digits = bit_length(exact);
        lemma_digits_bound(exact);
        if digits <= 53 {
            if digits < 53 {
                lemma_pow2_strictly_increases(digits, 53);
            }
        } else {
            lemma_pow2_adds(52, drop);
            lemma_pow2_adds(53, drop);
            assert(kept >= pow2(52)) by (nonlinear_arith)
                requires
                    exact == kept * unit + lost,
                    0 <= lost < unit,
                    pow2(52) * unit <= exact,
            ;
            assert(kept < pow2(53)) by (nonlinear_arith)
                requires
                    exact == kept * unit + lost,
                    0 <= lost,
                    unit > 0,
                    exact < pow2(53) * unit,
            ;
        }
    }
}

/// The number that a magnitude put together from a scale and a significand
/// stands for; a significand of two to the 53 carries into the scale.
pub proof fn lemma_scaled_of_pattern(drop: nat, kept: int)
    requires
        0 <= kept <= 2 * HIDDEN,
        drop > 0 ==> kept >= HIDDEN,
    ensures
        scaled(drop * HIDDEN + kept) == kept * pow2(drop),
{
    let pattern = drop * HIDDEN + kept;
    lemma2_to64();
    if kept < HIDDEN {
        assert(kept * pow2(drop) == kept) by (nonlinear_arith)
            requires
                pow2(drop) == 1,
        ;
    } else if kept < 2 * HIDDEN {
        lemma_fundamental_div_mod_converse(
            pattern,
            HIDDEN as int,
            (drop + 1) as int,
            kept - HIDDEN,
        );
    } else {
        lemma_fundamental_div_mod_converse(pattern, HIDDEN as int, (drop + 2) as int, 0);
        lemma_pow2_unfold(drop + 1);
        assert(HIDDEN * pow2(drop + 1) == kept * pow2(drop)) by (nonlinear_arith)
            requires
                pow2(drop + 1) == 2 * pow2(drop),
                kept == 2 * HIDDEN,
        ;
    }
}

/// No double lies between two neighbours at the precision of a cut.
pub proof fn lemma_no_double_between(other: int, drop: nat, kept: int)
    requires
        0 <= other < INFINITY,
        0 <= kept,
        drop > 0 ==> kept >= HIDDEN,
    ensures
        scaled(other) <= kept * pow2(drop) || scaled(other) >= (kept + 1) * pow2(drop),
{
    let sig = significand(other);
    let own = scale(other);
    let unit = pow2(drop) as int;
    lemma_pow2_pos(drop);
    lemma_pow2_pos(own);
    if own >= drop {
        let above = (own - drop) as nat;
        lemma_pow2_adds(above, drop);
        let count = sig * pow2(above);
        assert(scaled(other) == count * unit) by (nonlinear_arith)
            requires
                scaled(other) == sig * pow2(own),
                pow2(own) == pow2(above) * unit,
                count == sig * pow2(above),
        ;
        if count <= kept {
            assert(count * unit <= kept * unit) by (nonlinear_arith)
                requires
                    count <= kept,
                    unit > 0,
            ;
        } else {
            assert(count * unit >= (kept + 1) * unit) by (nonlinear_arith)
                requires
                    count >= kept + 1,
                    unit > 0,
            ;
        }
    } else {
        lemma_pow2_unfold(own + 1);
        if own + 1 < drop {
            lemma_pow2_strictly_increases(own + 1, drop);
        }
        assert(scaled(other) <= kept * unit) by (nonlinear_arith)
            requires
                scaled(other) == sig * pow2(own),
                0 <= sig < 2 * HIDDEN,
                pow2(own) > 0,
                2 * pow2(own) <= unit,
                kept >= HIDDEN,
        ;
    }
}

/// Rounding gives a nearest double: no finite double lies nearer to `exact`
/// than the one that `exact` rounds to, and where another lies as near, the
/// one that `exact` rounds to is even.
pub proof fn lemma_round_is_nearest(exact: int, other: int)
    requires
        exact >= 0,
        0 <= other < INFINITY,
        round_to_nearest(exact) < INFINITY,
    ensures
        distance(scaled(round_to_nearest(exact)), exact) <= distance(scaled(other), exact),
        distance(scaled(round_to_nearest(exact)), exact) == distance(scaled(other), exact)
            && scaled(other) != scaled(round_to_nearest(exact)) ==> round_to_nearest(exact) % 2
            == 0,
{
    let drop = dropped_digits(exact);
    let unit = pow2(drop) as int;
    let kept = exact / unit;
    let lost = exact % unit;
    let up: int = if rounds_up(kept, lost, drop) {
        1
    } else {
        0
    };
    lemma_cut(exact);
    lemma_pow2_pos(drop);
    lemma_scaled_of_pattern(drop, kept + up);
    lemma_no_double_between(other, drop, kept);
    assert((kept + 1) * unit == kept * unit + unit) by (nonlinear_arith);
    assert((drop * HIDDEN + kept) % 2 == kept % 2) by (nonlinear_arith)
        requires
            HIDDEN == 0x0010_0000_0000_0000,
    ;
}

/// A number that is a double rounds to that double.
pub proof fn lemma_round_exact(magnitude: int)
    requires
        0 <= magnitude < INFINITY,
    ensures
        round_to_nearest(scaled(magnitude)) == magnitude,
{
    lemma_pow2_pos(scale(magnitude));
    lemma_round_decomposed(scaled(magnitude), scale(magnitude), significand(magnitude), 0);
}

/// The order of the operands does not matter to a sum.
pub proof fn lemma_sum_commutes(x: u64, y: u64)
    ensures
        number_sum(x, y) == number_sum(y, x),
{
}

/// Adding zero to a number gives the number, but for negative zero, whose
/// sum with zero is zero.
pub proof fn lemma_sum_with_zero(x: u64)
    requires
        !is_nan(x),
        x != SIGN,
    ensures
        number_sum(x, 0) == x,
{
    lemma2_to64();
    assert(scaled(0) == 0) by (nonlinear_arith)
        requires
            scaled(0) == 0 * pow2(0),
    ;
    if magnitude(x) < INFINITY {
        lemma_round_exact(magnitude(x));
        lemma_scaled_is_zero(magnitude(x));
    }
}

} // verus!
