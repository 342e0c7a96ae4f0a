use vstd::prelude::*;
use crate::algorithms::{answers, follows, Op, Sample};
use crate::single::{is_negative, is_not_finite, is_positive_finite};

verus! {

/// The step of the virtual index: input rate over output rate, as a
/// single-precision number. A ratio is above zero and below infinity,
/// always.
#[derive(Clone, Copy, Debug)]
pub struct Ratio {
    bits: Sample,
}

/// Why two numbers make no ratio.
#[derive(Clone, Copy, Debug, PartialEq, Eq, Structural)]
pub enum RatioError {
    /// A rate is zero or negative.
    NotPositive,
    /// A rate is infinite or not a number.
    NotFinite,
    /// The quotient of the rates is no number above zero and below infinity.
    OutOfRange,
}

/// What keeps a single-precision number from being a rate, if anything does.
pub open spec fn rate_error(bits: Sample) -> Option<RatioError> {
    if is_not_finite(bits) {
        Some(RatioError::NotFinite)
    } else if is_negative(bits) || bits == 0 {
        Some(RatioError::NotPositive)
    } else {
        None
    }
}

/// What keeps a single-precision number from being a rate, if anything does.
fn check_rate(bits: Sample) -> (r: Option<RatioError>)
    ensures
        r == rate_error(bits),
        r is None <==> is_positive_finite(bits),
{
    if (bits / 0x80_0000) % 0x100 == 0xFF {
        Some(RatioError::NotFinite)
    } else if bits >= 0x8000_0000 || bits == 0 {
        Some(RatioError::NotPositive)
    } else {
        None
    }
}

impl Ratio {
    /// The ratio as a sample.
    pub closed spec fn sample(self) -> Sample {
        self.bits
    }

    /// A ratio is above zero and below infinity. Every ratio that
    /// executable code holds is; a ratio that only a proof speaks of has to
    /// say so.
    #[verifier::type_invariant]
    pub open spec fn wf(self) -> bool {
        is_positive_finite(self.sample())
    }

    /// Whether and why two rates make no ratio. The input rate is looked at
    /// first, the quotient last.
    pub open spec fn error_of_rates(
        fpu: spec_fn(Op) -> Sample,
        input: Sample,
        output: Sample,
    ) -> Option<RatioError> {
        if rate_error(input) is Some {
            rate_error(input)
        } else if rate_error(output) is Some {
            rate_error(output)
        } else if rate_error(fpu(Op::Div(input, output))) is Some {
            Some(RatioError::OutOfRange)
        } else {
            None
        }
    }

    /// The ratio that a single-precision number is, where it is above zero
    /// and below infinity.
    pub fn new(bits: Sample) -> (r: Result<Ratio, RatioError>)
        ensures
            match rate_error(bits) {
                Some(e) => r == Err::<Ratio, RatioError>(e),
                None => r is Ok && r->Ok_0.sample() == bits,
            },
    {
        match check_rate(bits) {
            Some(e) => Err(e),
            None => Ok(Ratio { bits }),
        }
    }

    /// The quotient of two rates, input over output. Both have to be above
    /// zero and below infinity, and so has their quotient.
    pub fn from_rates<A: Fn(Op) -> Sample>(input: Sample, output: Sample, arithmetic: &A) -> (r:
        Result<Ratio, RatioError>)
        requires
            answers(*arithmetic),
        ensures
            rate_error(input) matches Some(e) ==> r == Err::<Ratio, RatioError>(e),
            rate_error(input) is None ==> (rate_error(output) matches Some(e) ==> r == Err::<
                Ratio,
                RatioError,
            >(e)),
            forall|fpu: spec_fn(Op) -> Sample| #[trigger]
                follows(*arithmetic, fpu) ==> match Ratio::error_of_rates(fpu, input, output) {
                    Some(e) => r == Err::<Ratio, RatioError>(e),
                    None => r is Ok && r->Ok_0.sample() == fpu(Op::Div(input, output)),
                },
    {
        if let Some(e) = check_rate(input) {
            return Err(e);
        }
        if let Some(e) = check_rate(output) {
            return Err(e);
        }
        let quotient: Sample = arithmetic(Op::Div(input, output));
        match check_rate(quotient) {
            Some(_) => Err(RatioError::OutOfRange),
            None => Ok(Ratio { bits: quotient }),
        }
    }

    /// The ratio as a sample.
    pub fn bits(&self) -> (bits: Sample)
        ensures
            bits == self.sample(),
            self.wf(),
    {
        proof {
            use_type_invariant(self);
        }
        self.bits
    }
}

} // verus!
