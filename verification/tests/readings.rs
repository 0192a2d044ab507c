//! Readings of reals.
use postprocessor::reading::{
    bits_of_level, bits_of_stamp, higher_of, level_of_bits, lower_of, stamp_of_bits, Level, Stamp,
    LEVEL_LIMIT, ONE, STAMP_LIMIT,
};

/// The reading of a real. What is not a number reads lower than everything.
fn level(value: f32) -> Level {
    level_or(value, Level::MIN)
}

/// The reading of a real, and of what is not a number.
fn level_or(value: f32, not_a_number: Level) -> Level {
    level_of_bits(value.to_bits()).unwrap_or(not_a_number)
}

/// The real behind a reading.
fn number(level: Level) -> f32 {
    if level.unsigned_abs() > LEVEL_LIMIT {
        return f32::NAN;
    }
    f32::from_bits(bits_of_level(level))
}

/// The reading of a 64-bit real. What is not a number reads lower than everything.
fn stamp(value: f64) -> Stamp {
    stamp_of_bits(value.to_bits()).unwrap_or(Stamp::MIN)
}

/// The real behind a 64-bit reading.
fn time(stamp: Stamp) -> f64 {
    if stamp.unsigned_abs() > STAMP_LIMIT {
        return f64::NAN;
    }
    f64::from_bits(bits_of_stamp(stamp))
}

const REALS: [f32; 9] = [
    f32::NEG_INFINITY,
    -2.5,
    -1e-40,
    0.0,
    1e-40,
    0.25,
    1.0,
    3e38,
    f32::INFINITY,
];

#[test]
fn readings_have_the_order_of_the_reals() {
    for (i, a) in REALS.iter().enumerate() {
        for (j, b) in REALS.iter().enumerate() {
            assert_eq!(level(*a) < level(*b), i < j);
            assert_eq!(stamp(*a as f64) < stamp(*b as f64), i < j);
        }
    }
}

#[test]
fn reals_come_back_from_their_readings() {
    for a in REALS {
        assert_eq!(number(level(a)).to_bits(), a.to_bits());
        let wide = a as f64 * 1.1;
        assert_eq!(time(stamp(wide)).to_bits(), wide.to_bits());
    }
}

#[test]
fn both_zeros_read_as_zero() {
    assert_eq!(level_of_bits((0.0f32).to_bits()), Some(0));
    assert_eq!(level_of_bits((-0.0f32).to_bits()), Some(0));
    assert_eq!(stamp_of_bits((-0.0f64).to_bits()), Some(0));
    assert_eq!(bits_of_level(0), 0);
    assert_eq!(bits_of_stamp(0), 0);
}

#[test]
fn what_is_not_a_number_has_no_reading() {
    assert_eq!(level_of_bits(f32::NAN.to_bits()), None);
    assert_eq!(level_of_bits((-f32::NAN).to_bits()), None);
    assert_eq!(stamp_of_bits(f64::NAN.to_bits()), None);
    assert!(level_of_bits(f32::INFINITY.to_bits()).is_some());
}

#[test]
fn one_has_a_reading() {
    assert_eq!(ONE, level(1.0));
    assert_eq!(lower_of(ONE, 3), 3);
    assert_eq!(higher_of(ONE, 3), ONE);
}
