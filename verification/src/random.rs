//! Random draws from the `rand` crate's standard generator.
//!
//! The generator is carried as an opaque value. What a draw gives is left to
//! chance; functions that depend on it take the drawn words as arguments, so
//! that they are exact for every outcome.

use vstd::prelude::*;
use rand::rngs::StdRng;
use rand::{Rng, SeedableRng};
use vstd::arithmetic::power2::{lemma2_to64, lemma_pow2_adds, lemma_pow2_pos, lemma_pow2_unfold, pow2};
use crate::accuracy::{exact, law_negation_exact, law_product_error, law_sum_error, law_whole_is_exact, within};
use crate::arith::{law_commutes, law_products_ordered, lemma_absolute, one, unit, zero};
use crate::conversion::{lemma_sum_within, lemma_turn, rounded, PI_BITS, TWO_PI_BITS};
use crate::rounding::{law_multiple_rounds_back, law_nearest_exists, law_representable_stays, law_rounding_monotone, lemma_magnitudes_ordered, lemma_nearest_in_range, nearest};
use crate::single::{law_negation, magnitude_value, Single, ONE_BITS};
use crate::turning::{lemma_distributes, lemma_turn_numbers, product};

verus! {

/// The generator of the `rand` crate.
#[verifier::external_type_specification]
#[verifier::external_body]
pub struct ExStdRng(StdRng);

/// The generator that [`StdRng::seed_from_u64`] makes of a seed.
pub uninterp spec fn seeded_generator(seed: u64) -> StdRng;

/// Calls `StdRng::seed_from_u64`. The generator it makes depends on the seed
/// alone: the seed is expanded to a key by integer arithmetic, and the stream
/// starts at its beginning.
#[verifier::external_body]
pub(crate) fn seeded(seed: u64) -> (r: StdRng)
    ensures
        r == seeded_generator(seed),
{
    StdRng::seed_from_u64(seed)
}

/// Calls `Rng::gen_range` with the range from zero up to `n`, which panics on
/// an empty range. The result lies in the range; which index it is, is chance.
#[verifier::external_body]
pub(crate) fn draw_index(rng: &mut StdRng, n: usize) -> (r: usize)
    requires
        n > 0,
    ensures
        r < n,
{
    rng.gen_range(0..n)
}

/// Calls `Rng::gen` for a word of 32 bits. Which word it is, is chance.
#[verifier::external_body]
pub(crate) fn draw_word(rng: &mut StdRng) -> (r: u32) {
    rng.gen::<u32>()
}

/// Pattern of 2^-24.
pub const SCALE_BITS: u32 = 0x3380_0000;

/// The number in `[0, 1)` that the upper 24 bits of a word stand for.
pub open spec fn fraction(word: u32) -> Single {
    (Single { bits: SCALE_BITS }).times(rounded((word / 256) as int))
}

/// The angle in `[-pi, pi)` that a word stands for.
pub open spec fn drawn_angle(word: u32) -> Single {
    fraction(word).times(Single { bits: TWO_PI_BITS }).minus(Single { bits: PI_BITS })
}

/// The number in `[0, 1)` that the upper 24 bits of a word stand for.
pub fn fraction_of(word: u32) -> (r: Single)
    ensures
        r == fraction(word),
{
    (Single { bits: SCALE_BITS }).mul(Single::from_u64((word / 256) as u64))
}

/// The angle in `[-pi, pi)` that a word stands for.
pub fn angle_of(word: u32) -> (r: Single)
    ensures
        r == drawn_angle(word),
{
    fraction_of(word).mul(Single { bits: TWO_PI_BITS }).sub(Single { bits: PI_BITS })
}

// ---- Laws -------------------------------------------------------------------

/// The largest number that a word stands for: one less 2^-24.
pub const TOP_BITS: u32 = 0x3f7f_ffff;

/// Units of the patterns used here.
proof fn lemma_units()
    ensures
        magnitude_value(SCALE_BITS as int) == pow2(125),
        magnitude_value(TOP_BITS as int) == 0xff_ffff * pow2(125),
        magnitude_value(0x4b7f_ffff) == 0xff_ffff * one(),
        one() == 0x100_0000 * pow2(125),
        one() > 0,
{
    let (a, b, c) = (SCALE_BITS as int, TOP_BITS as int, 0x4b7f_ffffint);
    assert(a / 0x80_0000 == 103 && a % 0x80_0000 == 0);
    assert(b / 0x80_0000 == 126 && b % 0x80_0000 == 0x7f_ffff);
    assert(c / 0x80_0000 == 150 && c % 0x80_0000 == 0x7f_ffff);
    assert(magnitude_value(a) == 0x80_0000 * pow2(102));
    assert(magnitude_value(b) == 0xff_ffff * pow2(125));
    assert(magnitude_value(c) == 0xff_ffff * pow2(149));
    lemma2_to64();
    lemma_pow2_adds(23, 102);
    lemma_pow2_adds(24, 125);
    lemma_pow2_pos(149);
}

/// The number of a word lies in `[0, 1)`: at most one less 2^-24.
pub proof fn law_fraction_below_one(word: u32)
    ensures
        !fraction(word).negative(),
        fraction(word).magnitude() <= TOP_BITS,
        fraction(word).below(unit()),
        zero().at_most(fraction(word)),
{
    let n = (word / 256) as int;
    let scale = Single { bits: SCALE_BITS };
    let top = Single { bits: 0x4b7f_ffff };
    let o = one();
    lemma_units();
    // the whole number
    reveal(rounded);
    let w = rounded(n);
    assert(n <= 0xff_ffff);
    assert(0 <= n * o <= 0xff_ffff * o) by (nonlinear_arith)
        requires
            0 <= n <= 0xff_ffff,
            o > 0,
    ;
    law_representable_stays(0x4b7f_ffff);
    law_rounding_monotone(n * o, 0xff_ffff * o, 1);
    lemma_nearest_in_range(n * o, 1);
    assert(w.magnitude() <= top.magnitude());
    // scaled down
    law_products_ordered(w, top, scale);
    law_commutes(w, scale);
    assert(top.times(scale).magnitude() == TOP_BITS) by {
        reveal(Single::times);
        lemma_absolute(top);
        lemma_absolute(scale);
        let b = pow2(125) as int;
        assert((0xff_ffff * o) * b == (0xff_ffff * b) * o) by (nonlinear_arith);
        law_multiple_rounds_back(TOP_BITS as int, o);
    }
    let r = fraction(word);
    lemma_absolute(r);
    lemma_magnitudes_ordered(r.magnitude(), TOP_BITS as int);
    lemma_magnitudes_ordered(TOP_BITS as int, ONE_BITS as int);
    lemma_magnitudes_ordered(0, r.magnitude());
    assert(magnitude_value(0) == 0);
}

/// The largest part of a turn that a word stands for.
proof fn lemma_top_of_turn()
    ensures
        (Single { bits: TOP_BITS }).times(Single { bits: TWO_PI_BITS }).magnitude() < TWO_PI_BITS,
{
    let top = Single { bits: TOP_BITS };
    let turn = Single { bits: TWO_PI_BITS };
    let t = TWO_PI_BITS as int;
    lemma_units();
    assert(t / 0x80_0000 == 129 && t % 0x80_0000 == 0x49_0fdb);
    assert((t - 1) / 0x80_0000 == 129 && (t - 1) % 0x80_0000 == 0x49_0fda);
    let (p, b, o) = (pow2(128) as int, pow2(125) as int, one());
    assert(magnitude_value(t) == 0xc9_0fdb * p);
    assert(magnitude_value(t - 1) == 0xc9_0fda * p);
    lemma_pow2_pos(128);
    lemma_pow2_pos(125);
    reveal(Single::times);
    lemma_absolute(top);
    lemma_absolute(turn);
    let num = (0xff_ffff * b) * (0xc9_0fdb * p);
    law_nearest_exists(num, o);
    let n = nearest(num, o);
    if n >= t {
        lemma_magnitudes_ordered(t - 1, n - 1);
        lemma_magnitudes_ordered(t, n);
        let mid = magnitude_value(n - 1) + magnitude_value(n);
        assert(2 * num < mid * o) by (nonlinear_arith)
            requires
                num == (0xff_ffff * b) * (0xc9_0fdb * p),
                mid >= 0xc9_0fda * p + 0xc9_0fdb * p,
                o == 0x100_0000 * b,
                b > 0,
                p > 0,
        ;
        assert(false);
    }
}

/// The angle of a word lies in `[-pi, pi)`.
pub proof fn law_drawn_angle_within_turn(word: u32)
    ensures
        (Single { bits: PI_BITS }).negated().at_most(drawn_angle(word)),
        drawn_angle(word).below(Single { bits: PI_BITS }),
{
    let pi = Single { bits: PI_BITS };
    let turn = Single { bits: TWO_PI_BITS };
    let top = Single { bits: TOP_BITS };
    let f = fraction(word);
    law_fraction_below_one(word);
    law_products_ordered(f, top, turn);
    lemma_top_of_turn();
    let a = f.times(turn);
    let (p, t) = (PI_BITS as int, TWO_PI_BITS as int);
    assert(a.magnitude() <= t - 1 && !a.negative());
    lemma_turn();
    lemma_absolute(a);
    lemma_magnitudes_ordered(a.magnitude(), t - 1);
    lemma_magnitudes_ordered(t - 1, t);
    lemma_magnitudes_ordered(p - 1, p);
    law_negation(pi);
    lemma_sum_within(a, pi.negated(), p);
    let r = drawn_angle(word);
    lemma_absolute(r);
    lemma_magnitudes_ordered(r.magnitude(), p);
    if a.value() >= magnitude_value(p) {
        assert(magnitude_value(t - 1) - magnitude_value(p) <= magnitude_value(p - 1)) by {
            assert(p / 0x80_0000 == 128 && p % 0x80_0000 == 0x49_0fdb);
            assert((p - 1) / 0x80_0000 == 128 && (p - 1) % 0x80_0000 == 0x49_0fda);
            assert((t - 1) / 0x80_0000 == 129 && (t - 1) % 0x80_0000 == 0x49_0fda);
            assert(magnitude_value(p) == 0xc9_0fdb * pow2(127));
            assert(magnitude_value(p - 1) == 0xc9_0fda * pow2(127));
            assert(magnitude_value(t - 1) == 0xc9_0fda * pow2(128));
            lemma_pow2_unfold(128);
            lemma_pow2_pos(127);
        }
        lemma_sum_within(a, pi.negated(), p - 1);
        lemma_magnitudes_ordered(r.magnitude(), p - 1);
    }
}

/// The fraction of a word is its upper 24 bits, over 2^24.
pub proof fn law_fraction_is_upper_bits(word: u32)
    ensures
        within(
            exact(fraction(word)),
            (word / 256) as real / 16_777_216 as real,
            1 as real / 33_554_432 as real,
        ),
{
    let n = (word / 256) as int;
    let scale = Single { bits: SCALE_BITS };
    lemma_units();
    lemma2_to64();
    law_whole_is_exact(n);
    let (o, b) = (one() as real, pow2(125) as real);
    assert(b / o == 1 as real / 16_777_216 as real) by (nonlinear_arith)
        requires
            o == 16_777_216 as real * b,
            o > 0 as real,
    ;
    let r = n as real;
    assert((1 as real / 16_777_216 as real) * r == r / 16_777_216 as real) by (nonlinear_arith);
    law_product_error(scale, rounded(n), 0);
}

/// The drawn angle goes once round: the fraction of a word, of a whole turn,
/// from minus pi on.
pub proof fn law_drawn_angle_goes_round(word: u32)
    ensures
        within(
            exact(drawn_angle(word)) + exact(Single { bits: PI_BITS }),
            product(
                (word / 256) as real / 16_777_216 as real,
                exact(Single { bits: TWO_PI_BITS }),
            ),
            1 as real / 1_048_576 as real,
        ),
{
    let (pi, turn) = (Single { bits: PI_BITS }, Single { bits: TWO_PI_BITS });
    let f = fraction(word);
    law_fraction_is_upper_bits(word);
    law_fraction_below_one(word);
    lemma_turn_numbers();
    lemma2_to64();
    let (x, y, t) = (exact(f), (word / 256) as real / 16_777_216 as real, exact(turn));
    let e = 1 as real / 33_554_432 as real;
    assert(-e <= x <= 1 as real + e);
    assert(-(8 as real) <= x * t <= 8 as real && -(7 as real * e) <= (x - y) * t <= 7 as real * e)
        by (nonlinear_arith)
        requires
            -e <= x <= 1 as real + e,
            -e <= x - y <= e,
            0 as real <= t <= 7 as real,
            e == 1 as real / 33_554_432 as real,
    ;
    assert(product(x, t) == x * t && product(x - y, t) == (x - y) * t) by {
        reveal(product);
    }
    lemma_distributes(t, y, x - y);
    law_product_error(f, turn, 3);
    law_negation_exact(pi);
    law_sum_error(f.times(turn), pi.negated(), 4);
}

} // verus!
