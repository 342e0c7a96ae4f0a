use resampler::algorithms::Op;
use resampler::ratio::{Ratio, RatioError};

fn arithmetic(op: Op) -> u32 {
    let f = f32::from_bits;
    let value = match op {
        Op::Add(a, b) => f(a) + f(b),
        Op::Sub(a, b) => f(a) - f(b),
        Op::Mul(a, b) => f(a) * f(b),
        Op::Div(a, b) => f(a) / f(b),
        Op::Neg(a) => -f(a),
    };
    value.to_bits()
}

fn of(input: f32, output: f32) -> Result<f32, RatioError> {
    Ratio::from_rates(input.to_bits(), output.to_bits(), &arithmetic)
        .map(|ratio| f32::from_bits(ratio.bits()))
}

fn made(value: f32) -> Result<f32, RatioError> {
    Ratio::new(value.to_bits()).map(|ratio| f32::from_bits(ratio.bits()))
}

#[test]
fn new_keeps_the_number() {
    assert_eq!(made(1.0), Ok(1.0));
    assert_eq!(made(0.1), Ok(0.1));
    assert_eq!(made(f32::MAX), Ok(f32::MAX));
    assert_eq!(made(f32::from_bits(1)), Ok(f32::from_bits(1)));
}

#[test]
fn new_turns_down_what_is_no_ratio() {
    assert_eq!(made(0.0), Err(RatioError::NotPositive));
    assert_eq!(made(-0.0), Err(RatioError::NotPositive));
    assert_eq!(made(-2.0), Err(RatioError::NotPositive));
    assert_eq!(made(f32::INFINITY), Err(RatioError::NotFinite));
    assert_eq!(made(f32::NEG_INFINITY), Err(RatioError::NotFinite));
    assert_eq!(made(f32::NAN), Err(RatioError::NotFinite));
}

#[test]
fn the_ratio_is_the_quotient_in_single_precision() {
    assert_eq!(of(1.0, 2.0), Ok(0.5));
    assert_eq!(of(1.0, 10.0), Ok(0.1));
    assert_eq!(of(1.0, 3.0), Ok(1.0f32 / 3.0f32));
    assert_eq!(of(44100.0, 48000.0), Ok(44100.0f32 / 48000.0f32));
    assert_eq!(of(3.0, 0.25), Ok(12.0));
}

#[test]
fn rates_far_apart_make_a_ratio() {
    let big = (2.0f32).powi(41);
    assert_eq!(of(big, 1.0), Ok(big));
    assert_eq!(of(1.0, big), Ok(1.0 / big));
    assert_eq!(of(1.0e30, 1.0e-5), Ok(1.0e30f32 / 1.0e-5f32));
}

#[test]
fn zero_and_negative_rates_are_not_positive() {
    assert_eq!(of(0.0, 1.0), Err(RatioError::NotPositive));
    assert_eq!(of(1.0, 0.0), Err(RatioError::NotPositive));
    assert_eq!(of(-0.0, 1.0), Err(RatioError::NotPositive));
    assert_eq!(of(-1.0, 1.0), Err(RatioError::NotPositive));
    assert_eq!(of(1.0, -44100.0), Err(RatioError::NotPositive));
    assert_eq!(of(1.0, -f32::from_bits(1)), Err(RatioError::NotPositive));
}

#[test]
fn infinite_rates_and_nan_are_not_finite() {
    assert_eq!(of(f32::INFINITY, 1.0), Err(RatioError::NotFinite));
    assert_eq!(of(1.0, f32::INFINITY), Err(RatioError::NotFinite));
    assert_eq!(of(f32::NEG_INFINITY, 1.0), Err(RatioError::NotFinite));
    assert_eq!(of(f32::NAN, 1.0), Err(RatioError::NotFinite));
    assert_eq!(of(1.0, f32::NAN), Err(RatioError::NotFinite));
    assert_eq!(of(1.0, -f32::NAN), Err(RatioError::NotFinite));
}

#[test]
fn the_input_rate_is_looked_at_first() {
    assert_eq!(of(0.0, f32::NAN), Err(RatioError::NotPositive));
    assert_eq!(of(f32::NAN, 0.0), Err(RatioError::NotFinite));
}

#[test]
fn a_quotient_that_overflows_or_vanishes_is_out_of_range() {
    assert_eq!(of(1.0e30, 1.0e-30), Err(RatioError::OutOfRange));
    assert_eq!(of(f32::MAX, f32::from_bits(1)), Err(RatioError::OutOfRange));
    assert_eq!(of(1.0e-30, 1.0e30), Err(RatioError::OutOfRange));
    assert_eq!(of(f32::from_bits(1), 4.0), Err(RatioError::OutOfRange));
}

#[test]
fn the_quotient_is_asked_of_the_arithmetic() {
    let asked = std::cell::Cell::new(0);
    let counting = |op: Op| {
        asked.set(asked.get() + 1);
        assert_eq!(op, Op::Div(6.0f32.to_bits(), 4.0f32.to_bits()));
        arithmetic(op)
    };
    let ratio = Ratio::from_rates(6.0f32.to_bits(), 4.0f32.to_bits(), &counting).unwrap();
    assert_eq!(f32::from_bits(ratio.bits()), 1.5);
    assert_eq!(asked.get(), 1);
}
