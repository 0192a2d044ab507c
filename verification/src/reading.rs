//! Real-valued readings as integers that compare the way the reals do.
//!
//! Coordinates, scores and times reach the library as the bit patterns of binary
//! floating-point reals. Rules only ever compare them, so a reading is kept as its
//! signed magnitude: zero is 0, one is [`ONE`], and a larger real has a larger reading.
//! Whoever computes with reals hands the computed values over as readings too.
use vstd::arithmetic::div_mod::{lemma_fundamental_div_mod, lemma_fundamental_div_mod_converse};
use vstd::arithmetic::power2::{lemma2_to64, lemma_pow2_pos, lemma_pow2_unfold, pow2};
use vstd::prelude::*;

verus! {

/// A 32-bit real (a coordinate, a share of an area, a score).
pub type Level = i32;

/// A 64-bit real (a point in time or a span, in milliseconds).
pub type Stamp = i64;

/// The reading of 1.
pub const ONE: Level = 0x3f80_0000;

/// The magnitude of infinity; a larger magnitude is not a number.
pub const LEVEL_LIMIT: u32 = 0x7f80_0000;

/// The magnitude of infinity for 64-bit reals.
pub const STAMP_LIMIT: u64 = 0x7ff0_0000_0000_0000;

const LEVEL_SIGN: u32 = 0x8000_0000;

const STAMP_SIGN: u64 = 0x8000_0000_0000_0000;

/// The magnitude part of a 32-bit pattern.
pub open spec fn level_magnitude(bits: u32) -> int {
    if bits < 0x8000_0000 {
        bits as int
    } else {
        bits - 0x8000_0000
    }
}

/// The signed magnitude of a 32-bit pattern.
pub open spec fn level_value(bits: u32) -> int {
    if bits < 0x8000_0000 {
        bits as int
    } else {
        0x8000_0000 - bits
    }
}

/// The magnitude part of a 64-bit pattern.
pub open spec fn stamp_magnitude(bits: u64) -> int {
    if bits < 0x8000_0000_0000_0000 {
        bits as int
    } else {
        bits - 0x8000_0000_0000_0000
    }
}

/// The signed magnitude of a 64-bit pattern.
pub open spec fn stamp_value(bits: u64) -> int {
    if bits < 0x8000_0000_0000_0000 {
        bits as int
    } else {
        0x8000_0000_0000_0000 - bits
    }
}

/// The reading of a 32-bit pattern, or `None` when the pattern is not a number.
pub fn level_of_bits(bits: u32) -> (level: Option<Level>)
    ensures
        level == (if level_magnitude(bits) <= LEVEL_LIMIT {
            Some(level_value(bits) as Level)
        } else {
            None
        }),
        level matches Some(v) ==> v == level_value(bits),
{
    if bits < LEVEL_SIGN {
        if bits <= LEVEL_LIMIT {
            Some(bits as i32)
        } else {
            None
        }
    } else {
        let magnitude: u32 = bits - LEVEL_SIGN;
        if magnitude <= LEVEL_LIMIT {
            Some(-(magnitude as i32))
        } else {
            None
        }
    }
}

/// The bit pattern of a reading; the inverse of [`level_of_bits`].
pub fn bits_of_level(level: Level) -> (bits: u32)
    requires
        -(LEVEL_LIMIT as int) <= level <= LEVEL_LIMIT,
    ensures
        level_value(bits) == level,
        level_magnitude(bits) <= LEVEL_LIMIT,
        bits != 0x8000_0000,
{
    if level >= 0 {
        level as u32
    } else {
        (-level) as u32 + LEVEL_SIGN
    }
}

/// The reading of a 64-bit pattern, or `None` when the pattern is not a number.
pub fn stamp_of_bits(bits: u64) -> (stamp: Option<Stamp>)
    ensures
        stamp == (if stamp_magnitude(bits) <= STAMP_LIMIT {
            Some(stamp_value(bits) as Stamp)
        } else {
            None
        }),
        stamp matches Some(v) ==> v == stamp_value(bits),
{
    if bits < STAMP_SIGN {
        if bits <= STAMP_LIMIT {
            Some(bits as i64)
        } else {
            None
        }
    } else {
        let magnitude: u64 = bits - STAMP_SIGN;
        if magnitude <= STAMP_LIMIT {
            Some(-(magnitude as i64))
        } else {
            None
        }
    }
}

/// The bit pattern of a reading; the inverse of [`stamp_of_bits`].
pub fn bits_of_stamp(stamp: Stamp) -> (bits: u64)
    requires
        -(STAMP_LIMIT as int) <= stamp <= STAMP_LIMIT,
    ensures
        stamp_value(bits) == stamp,
        stamp_magnitude(bits) <= STAMP_LIMIT,
        bits != 0x8000_0000_0000_0000,
{
    if stamp >= 0 {
        stamp as u64
    } else {
        (-stamp) as u64 + STAMP_SIGN
    }
}

/// Two patterns with the same reading are the same pattern, the two zeros aside.
pub proof fn law_level_loses_only_the_sign_of_zero(a: u32, b: u32)
    requires
        level_value(a) == level_value(b),
    ensures
        a == b || (level_magnitude(a) == 0 && level_magnitude(b) == 0),
{
}

/// Two 64-bit patterns with the same reading are the same pattern, the two zeros aside.
pub proof fn law_stamp_loses_only_the_sign_of_zero(a: u64, b: u64)
    requires
        stamp_value(a) == stamp_value(b),
    ensures
        a == b || (stamp_magnitude(a) == 0 && stamp_magnitude(b) == 0),
{
}

/// The number that a magnitude stands for, as a multiple of the smallest positive one: up
/// to `width` the magnitude itself, and then `width` numbers for each power of two.
pub open spec fn units(magnitude: int, width: int) -> int {
    let power = magnitude / width;
    if power == 0 {
        magnitude
    } else {
        (width + magnitude % width) * pow2((power - 1) as nat)
    }
}

/// The number that a 32-bit pattern stands for, as a multiple of the smallest positive one.
pub open spec fn level_units(bits: u32) -> int {
    if bits < 0x8000_0000 {
        units(level_magnitude(bits), 0x80_0000)
    } else {
        -units(level_magnitude(bits), 0x80_0000)
    }
}

/// The number that a 64-bit pattern stands for, as a multiple of the smallest positive one.
pub open spec fn stamp_units(bits: u64) -> int {
    if bits < 0x8000_0000_0000_0000 {
        units(stamp_magnitude(bits), 0x10_0000_0000_0000)
    } else {
        -units(stamp_magnitude(bits), 0x10_0000_0000_0000)
    }
}

proof fn lemma_units_step(magnitude: int, width: int)
    requires
        0 <= magnitude,
        1 < width,
    ensures
        units(magnitude, width) < units(magnitude + 1, width),
{
    let power = magnitude / width;
    let rest = magnitude % width;
    lemma_fundamental_div_mod(magnitude, width);
    assert(power >= 0) by (nonlinear_arith)
        requires
            magnitude >= 0,
            width > 1,
            power == magnitude / width,
    ;
    if rest + 1 < width {
        lemma_fundamental_div_mod_converse(magnitude + 1, width, power, rest + 1);
        if power > 0 {
            let scale = pow2((power - 1) as nat) as int;
            lemma_pow2_pos((power - 1) as nat);
            assert((width + rest) * scale < (width + rest + 1) * scale) by (nonlinear_arith)
                requires
                    scale > 0,
            ;
        }
    } else {
        assert((power + 1) * width == width * power + width) by (nonlinear_arith);
        lemma_fundamental_div_mod_converse(magnitude + 1, width, power + 1, 0);
        lemma_pow2_pos(power as nat);
        if power == 0 {
            lemma2_to64();
            assert(width * pow2(0) == width);
        } else {
            let scale = pow2((power - 1) as nat) as int;
            lemma_pow2_pos((power - 1) as nat);
            lemma_pow2_unfold(power as nat);
            assert((width + rest) * scale < width * (2 * scale)) by (nonlinear_arith)
                requires
                    scale > 0,
                    rest + 1 == width,
            ;
        }
    }
}

proof fn lemma_units_rise(a: int, b: int, width: int)
    requires
        0 <= a < b,
        1 < width,
    ensures
        units(a, width) < units(b, width),
    decreases b - a,
{
    lemma_units_step(b - 1, width);
    if a < b - 1 {
        lemma_units_rise(a, b - 1, width);
    }
}

proof fn lemma_signed_units_rise(a: int, b: int, width: int)
    requires
        0 <= a,
        0 <= b,
        1 < width,
    ensures
        a < b <==> units(a, width) < units(b, width),
        units(a, width) >= 0,
        units(a, width) == 0 <==> a == 0,
{
    assert(0int / width == 0) by (nonlinear_arith)
        requires
            1 < width,
    ;
    assert(units(0, width) == 0);
    if a > 0 {
        lemma_units_rise(0, a, width);
    }
    if a < b {
        lemma_units_rise(a, b, width);
    } else if b < a {
        lemma_units_rise(b, a, width);
    }
}

/// Readings compare the way the numbers they stand for do.
pub proof fn law_levels_compare_as_numbers(a: u32, b: u32)
    ensures
        level_value(a) < level_value(b) <==> level_units(a) < level_units(b),
        level_value(a) == level_value(b) <==> level_units(a) == level_units(b),
{
    lemma_signed_units_rise(level_magnitude(a), level_magnitude(b), 0x80_0000);
    lemma_signed_units_rise(level_magnitude(b), level_magnitude(a), 0x80_0000);
}

/// 64-bit readings compare the way the numbers they stand for do.
pub proof fn law_stamps_compare_as_numbers(a: u64, b: u64)
    ensures
        stamp_value(a) < stamp_value(b) <==> stamp_units(a) < stamp_units(b),
        stamp_value(a) == stamp_value(b) <==> stamp_units(a) == stamp_units(b),
{
    lemma_signed_units_rise(stamp_magnitude(a), stamp_magnitude(b), 0x10_0000_0000_0000);
    lemma_signed_units_rise(stamp_magnitude(b), stamp_magnitude(a), 0x10_0000_0000_0000);
}

/// The greater of a number and 0.
pub open spec fn at_least_zero(n: i32) -> i32 {
    if n < 0 {
        0
    } else {
        n
    }
}

/// The lower of two readings.
pub open spec fn smaller(a: Level, b: Level) -> Level {
    if a <= b {
        a
    } else {
        b
    }
}

/// The higher of two readings.
pub open spec fn larger(a: Level, b: Level) -> Level {
    if a >= b {
        a
    } else {
        b
    }
}

/// The lower of two readings.
pub fn lower_of(a: Level, b: Level) -> (level: Level)
    ensures
        level == smaller(a, b),
{
    if a <= b {
        a
    } else {
        b
    }
}

/// The higher of two readings.
pub fn higher_of(a: Level, b: Level) -> (level: Level)
    ensures
        level == larger(a, b),
{
    if a >= b {
        a
    } else {
        b
    }
}

/// A magnitude with `width` numbers for each power of two, of which `width` times two to the
/// power of `bias` less one begins at 1, stands for the number that is nearest to
/// `num / den`.
pub open spec fn is_nearest(magnitude: int, width: int, bias: int, num: int, den: int) -> bool {
    let digits = width + magnitude % width;
    let scale = pow2((bias - magnitude / width) as nat);
    -den <= 2 * (digits * den - num * scale) <= den
}

/// The reading is that of the fraction `num / den`, or of the number nearest to it.
pub open spec fn level_is(level: Level, num: int, den: int) -> bool {
    is_nearest(level as int, 0x80_0000, 150, num, den)
}

/// The 64-bit reading is that of the fraction `num / den`, or of the number nearest to it.
pub open spec fn stamp_is(stamp: Stamp, num: int, den: int) -> bool {
    is_nearest(stamp as int, 0x10_0000_0000_0000, 1075, num, den)
}

/// The reading of 1 is that of 1, and of two readings of fractions the larger is that of the
/// larger number.
pub proof fn law_one_is_one()
    ensures
        level_is(ONE, 1, 1),
        level_units(ONE as u32) * 2 == level_units(0x4000_0000),
{
    lemma2_to64();
    lemma_pow2_unfold(127);
    assert(pow2(127) == 2 * pow2(126));
    assert(ONE as u32 == 0x3f80_0000u32);
    let a = pow2(126) as int;
    assert(0x80_0000 * (2 * a) == (0x80_0000 * a) * 2) by (nonlinear_arith);
}

/// The lower and the higher of two readings are these two, in order, and the greater of a
/// number and 0 is neither below the number nor below 0 and is one of the two.
pub proof fn law_lower_and_higher(a: Level, b: Level)
    ensures
        smaller(a, b) <= a && smaller(a, b) <= b && (smaller(a, b) == a || smaller(a, b) == b),
        larger(a, b) >= a && larger(a, b) >= b && (larger(a, b) == a || larger(a, b) == b),
        at_least_zero(a) >= a && at_least_zero(a) >= 0,
        at_least_zero(a) == a || at_least_zero(a) == 0,
{
}

/// What is a number is read, and only that: the magnitude is at most that of infinity; a
/// pattern without a sign is read as it stands and one with a sign as its negative.
pub proof fn law_a_pattern_is_its_magnitude(bits: u32, wide: u64)
    ensures
        0 <= level_magnitude(bits) < 0x8000_0000,
        bits == level_magnitude(bits) + (if level_value(bits) == level_magnitude(bits) {
            0int
        } else {
            0x8000_0000int
        }) || bits == 0x8000_0000,
        level_value(bits) == level_magnitude(bits) || level_value(bits) == -level_magnitude(bits),
        bits < 0x8000_0000 <==> level_value(bits) > 0 || bits == 0,
        0 <= stamp_magnitude(wide) < 0x8000_0000_0000_0000,
        stamp_value(wide) == stamp_magnitude(wide) || stamp_value(wide) == -stamp_magnitude(wide),
        wide < 0x8000_0000_0000_0000 <==> stamp_value(wide) > 0 || wide == 0,
{
}

pub proof fn lemma_is_nearest(
    magnitude: int,
    width: int,
    bias: int,
    num: int,
    den: int,
    power: int,
    rest: int,
    scale: int,
)
    requires
        magnitude == power * width + rest,
        0 <= rest < width,
        pow2((bias - power) as nat) == scale,
        -den <= 2 * ((width + rest) * den - num * scale) <= den,
    ensures
        is_nearest(magnitude, width, bias, num, den),
{
    lemma_fundamental_div_mod_converse(magnitude, width, power, rest);
}

/// Infinity is what comes after the largest number: a magnitude with the highest power of two
/// and no digits.
pub proof fn law_infinity_comes_after_all_numbers()
    ensures
        LEVEL_LIMIT == 255 * 0x80_0000,
        STAMP_LIMIT == 2047 * 0x10_0000_0000_0000,
{
}

} // verus!
