use vstd::prelude::*;
use crate::single::{below_half, is_below_half};
use crate::text::{chars_of, has_word_at};

verus! {

/// A sample, carried as the bit pattern of an IEEE 754 single-precision
/// number. The library moves samples around and says which arithmetic is
/// done on them; the arithmetic itself is the caller's.
pub type Sample = u32;

/// The bit pattern of zero.
pub const ZERO: Sample = 0;

/// The bit pattern of one half.
pub const HALF: Sample = 0x3F00_0000;

/// The bit pattern of one.
pub const ONE: Sample = 0x3F80_0000;

/// The bit pattern of two.
pub const TWO: Sample = 0x4000_0000;

/// The bit pattern of three.
pub const THREE: Sample = 0x4040_0000;

/// The bit pattern of minus two.
pub const MINUS_TWO: Sample = 0xC000_0000;

/// One step of single-precision arithmetic, on samples as bit patterns.
#[derive(Clone, Copy, Debug, PartialEq, Eq, Structural)]
pub enum Op {
    /// The sum of two samples.
    Add(Sample, Sample),
    /// The first sample less the second.
    Sub(Sample, Sample),
    /// The product of two samples.
    Mul(Sample, Sample),
    /// The first sample over the second.
    Div(Sample, Sample),
    /// The sample with its sign turned.
    Neg(Sample),
}

/// Whether `arithmetic` may be asked for every step.
pub open spec fn answers<A: Fn(Op) -> Sample>(arithmetic: A) -> bool {
    forall|op: Op| #[trigger] call_requires(arithmetic, (op,))
}

/// Whether `arithmetic` computes the function `fpu`: whatever it returns for
/// a step is what `fpu` gives for it.
pub open spec fn follows<A: Fn(Op) -> Sample>(arithmetic: A, fpu: spec_fn(Op) -> Sample) -> bool {
    forall|op: Op, value: Sample| #[trigger]
        call_ensures(arithmetic, (op,), value) ==> value == fpu(op)
}

/// What the nearest-neighbour hold returns: the left sample where the
/// phase is less than one half, the right sample from there on.
pub open spec fn piecewise_constant_value(start: Sample, end: Sample, t: Sample) -> Sample {
    if below_half(t) {
        start
    } else {
        end
    }
}

/// Nearest-neighbour hold between two samples.
pub fn piecewise_constant(start: Sample, end: Sample, t: Sample) -> (value: Sample)
    ensures
        value == piecewise_constant_value(start, end, t),
        t == ZERO ==> value == start,
        t == ONE ==> value == end,
{
    if is_below_half(t) {
        start
    } else {
        end
    }
}

/// The blend `(1 - t) * start + t * end`, in that order of steps.
pub open spec fn blend_value(
    fpu: spec_fn(Op) -> Sample,
    start: Sample,
    end: Sample,
    t: Sample,
) -> Sample {
    fpu(Op::Add(fpu(Op::Mul(fpu(Op::Sub(ONE, t)), start)), fpu(Op::Mul(t, end))))
}

fn blend<A: Fn(Op) -> Sample>(start: Sample, end: Sample, t: Sample, arithmetic: &A) -> (value:
    Sample)
    requires
        answers(*arithmetic),
    ensures
        forall|fpu: spec_fn(Op) -> Sample| #[trigger]
            follows(*arithmetic, fpu) ==> value == blend_value(fpu, start, end, t),
{
    let rest: Sample = arithmetic(Op::Sub(ONE, t));
    let left: Sample = arithmetic(Op::Mul(rest, start));
    let right: Sample = arithmetic(Op::Mul(t, end));
    arithmetic(Op::Add(left, right))
}

/// What linear interpolation returns: `(1 - t) * start + t * end`.
pub open spec fn lerp_value(
    fpu: spec_fn(Op) -> Sample,
    start: Sample,
    end: Sample,
    t: Sample,
) -> Sample {
    blend_value(fpu, start, end, t)
}

/// Linear interpolation between two samples.
pub fn lerp<A: Fn(Op) -> Sample>(start: Sample, end: Sample, t: Sample, arithmetic: &A) -> (value:
    Sample)
    requires
        answers(*arithmetic),
    ensures
        forall|fpu: spec_fn(Op) -> Sample| #[trigger]
            follows(*arithmetic, fpu) ==> value == lerp_value(fpu, start, end, t),
{
    blend(start, end, t, arithmetic)
}

/// The smoothstep weight `t * t * (3 - 2 * t)`.
pub open spec fn smoothstep_value(fpu: spec_fn(Op) -> Sample, t: Sample) -> Sample {
    fpu(Op::Mul(fpu(Op::Mul(t, t)), fpu(Op::Sub(THREE, fpu(Op::Mul(TWO, t))))))
}

/// What the cubic without tangents returns: with `h` the smoothstep weight
/// of `t`, `(1 - h) * start + h * end`.
pub open spec fn tangentless_hermite_value(
    fpu: spec_fn(Op) -> Sample,
    start: Sample,
    end: Sample,
    t: Sample,
) -> Sample {
    blend_value(fpu, start, end, smoothstep_value(fpu, t))
}

/// Cubic interpolation between two samples that is flat at both.
pub fn tangentless_hermite<A: Fn(Op) -> Sample>(
    start: Sample,
    end: Sample,
    t: Sample,
    arithmetic: &A,
) -> (value: Sample)
    requires
        answers(*arithmetic),
    ensures
        forall|fpu: spec_fn(Op) -> Sample| #[trigger]
            follows(*arithmetic, fpu) ==> value == tangentless_hermite_value(fpu, start, end, t),
{
    let square: Sample = arithmetic(Op::Mul(t, t));
    let twice: Sample = arithmetic(Op::Mul(TWO, t));
    let slope: Sample = arithmetic(Op::Sub(THREE, twice));
    let hermite: Sample = arithmetic(Op::Mul(square, slope));
    blend(start, end, hermite, arithmetic)
}

/// The four weights of the cubic Hermite basis at `t`, for the first
/// position, the first tangent, the second position and the second tangent.
/// With `t2 = t * t` and `t3 = t2 * t` they are `h00 = -h01 + 1`,
/// `h10 = t3 - 2 * t2 + t`, `h01 = -2 * t3 + 3 * t2` and `h11 = t3 - t2`.
pub open spec fn hermite_weights(fpu: spec_fn(Op) -> Sample, t: Sample) -> (
    Sample,
    Sample,
    Sample,
    Sample,
) {
    let t2 = fpu(Op::Mul(t, t));
    let t3 = fpu(Op::Mul(t2, t));
    let h01 = fpu(Op::Add(fpu(Op::Mul(MINUS_TWO, t3)), fpu(Op::Mul(THREE, t2))));
    let h00 = fpu(Op::Add(fpu(Op::Neg(h01)), ONE));
    let h11 = fpu(Op::Sub(t3, t2));
    let h10 = fpu(Op::Add(fpu(Op::Sub(t3, fpu(Op::Mul(TWO, t2)))), t));
    (h00, h10, h01, h11)
}

/// The sum `h00 * pos_0 + h10 * m_0 + h01 * pos_1 + h11 * m_1`, added up
/// from the left.
pub open spec fn hermite_sum(
    fpu: spec_fn(Op) -> Sample,
    weights: (Sample, Sample, Sample, Sample),
    pos_0: Sample,
    pos_1: Sample,
    m_0: Sample,
    m_1: Sample,
) -> Sample {
    let (h00, h10, h01, h11) = weights;
    fpu(
        Op::Add(
            fpu(
                Op::Add(
                    fpu(Op::Add(fpu(Op::Mul(h00, pos_0)), fpu(Op::Mul(h10, m_0)))),
                    fpu(Op::Mul(h01, pos_1)),
                ),
            ),
            fpu(Op::Mul(h11, m_1)),
        ),
    )
}

/// What the cubic Hermite basis returns on two positions and their two
/// tangents: the sum of the four, each times its weight.
pub open spec fn even_hermite_value(
    fpu: spec_fn(Op) -> Sample,
    pos_0: Sample,
    pos_1: Sample,
    m_0: Sample,
    m_1: Sample,
    t: Sample,
) -> Sample {
    hermite_sum(fpu, hermite_weights(fpu, t), pos_0, pos_1, m_0, m_1)
}

/// The cubic Hermite basis on two positions and their two tangents.
pub fn even_hermite<A: Fn(Op) -> Sample>(
    pos_0: Sample,
    pos_1: Sample,
    m_0: Sample,
    m_1: Sample,
    t: Sample,
    arithmetic: &A,
) -> (value: Sample)
    requires
        answers(*arithmetic),
    ensures
        forall|fpu: spec_fn(Op) -> Sample| #[trigger]
            follows(*arithmetic, fpu) ==> value == even_hermite_value(
                fpu,
                pos_0,
                pos_1,
                m_0,
                m_1,
                t,
            ),
{
    let t2: Sample = arithmetic(Op::Mul(t, t));
    let t3: Sample = arithmetic(Op::Mul(t2, t));
    let h01: Sample = arithmetic(
        Op::Add(arithmetic(Op::Mul(MINUS_TWO, t3)), arithmetic(Op::Mul(THREE, t2))),
    );
    let h00: Sample = arithmetic(Op::Add(arithmetic(Op::Neg(h01)), ONE));
    let h11: Sample = arithmetic(Op::Sub(t3, t2));
    let h10: Sample = arithmetic(
        Op::Add(arithmetic(Op::Sub(t3, arithmetic(Op::Mul(TWO, t2)))), t),
    );
    let first: Sample = arithmetic(Op::Mul(h00, pos_0));
    let second: Sample = arithmetic(Op::Mul(h10, m_0));
    let third: Sample = arithmetic(Op::Mul(h01, pos_1));
    let fourth: Sample = arithmetic(Op::Mul(h11, m_1));
    arithmetic(Op::Add(arithmetic(Op::Add(arithmetic(Op::Add(first, second)), third)), fourth))
}

/// The tangent at a sample: half the difference of the sample ahead of it
/// and the sample behind.
pub open spec fn tangent_value(
    fpu: spec_fn(Op) -> Sample,
    behind: Sample,
    ahead: Sample,
) -> Sample {
    fpu(Op::Mul(fpu(Op::Sub(ahead, behind)), HALF))
}

/// The central difference across a sample.
pub fn tangent<A: Fn(Op) -> Sample>(behind: Sample, ahead: Sample, arithmetic: &A) -> (value:
    Sample)
    requires
        answers(*arithmetic),
    ensures
        forall|fpu: spec_fn(Op) -> Sample| #[trigger]
            follows(*arithmetic, fpu) ==> value == tangent_value(fpu, behind, ahead),
{
    let rise: Sample = arithmetic(Op::Sub(ahead, behind));
    arithmetic(Op::Mul(rise, HALF))
}

/// The bit pattern of minus zero.
pub const MINUS_ZERO: Sample = 0x8000_0000;

/// The bit pattern of minus one.
pub const MINUS_ONE: Sample = 0xBF80_0000;

/// What single precision gives on the constants that the kernels meet at
/// the two ends of the phase. Each line is one step on fixed numbers.
pub open spec fn is_single_on_constants(fpu: spec_fn(Op) -> Sample) -> bool {
    &&& fpu(Op::Sub(ONE, ZERO)) == ONE
    &&& fpu(Op::Sub(ONE, ONE)) == ZERO
    &&& fpu(Op::Sub(ZERO, ZERO)) == ZERO
    &&& fpu(Op::Sub(ONE, TWO)) == MINUS_ONE
    &&& fpu(Op::Sub(THREE, ZERO)) == THREE
    &&& fpu(Op::Sub(THREE, TWO)) == ONE
    &&& fpu(Op::Mul(ZERO, ZERO)) == ZERO
    &&& fpu(Op::Mul(ONE, ONE)) == ONE
    &&& fpu(Op::Mul(TWO, ZERO)) == ZERO
    &&& fpu(Op::Mul(TWO, ONE)) == TWO
    &&& fpu(Op::Mul(THREE, ZERO)) == ZERO
    &&& fpu(Op::Mul(THREE, ONE)) == THREE
    &&& fpu(Op::Mul(ZERO, THREE)) == ZERO
    &&& fpu(Op::Mul(MINUS_TWO, ZERO)) == MINUS_ZERO
    &&& fpu(Op::Mul(MINUS_TWO, ONE)) == MINUS_TWO
    &&& fpu(Op::Add(MINUS_ZERO, ZERO)) == ZERO
    &&& fpu(Op::Add(MINUS_TWO, THREE)) == ONE
    &&& fpu(Op::Add(MINUS_ZERO, ONE)) == ONE
    &&& fpu(Op::Add(MINUS_ONE, ONE)) == ZERO
    &&& fpu(Op::Add(ZERO, ZERO)) == ZERO
    &&& fpu(Op::Neg(ZERO)) == MINUS_ZERO
    &&& fpu(Op::Neg(ONE)) == MINUS_ONE
}

/// Arithmetic in which a blend at weight zero is its left sample: one
/// times the left sample is that sample, and zero times the right sample,
/// added to the left one, changes nothing.
pub open spec fn blends_to_start(fpu: spec_fn(Op) -> Sample, start: Sample, end: Sample) -> bool {
    &&& fpu(Op::Mul(ONE, start)) == start
    &&& fpu(Op::Add(start, fpu(Op::Mul(ZERO, end)))) == start
}

/// Arithmetic in which a blend at weight one is its right sample: one
/// times the right sample is that sample, and zero times the left sample,
/// with the right one added, changes nothing.
pub open spec fn blends_to_end(fpu: spec_fn(Op) -> Sample, start: Sample, end: Sample) -> bool {
    &&& fpu(Op::Mul(ONE, end)) == end
    &&& fpu(Op::Add(fpu(Op::Mul(ZERO, start)), end)) == end
}

/// Arithmetic in which a sum of four terms is its one term of weight one,
/// where the other three have weight zero: the first term of the four.
pub open spec fn sums_to_first(
    fpu: spec_fn(Op) -> Sample,
    pos_0: Sample,
    pos_1: Sample,
    m_0: Sample,
    m_1: Sample,
) -> bool {
    hermite_sum(fpu, (ONE, ZERO, ZERO, ZERO), pos_0, pos_1, m_0, m_1) == pos_0
}

/// The same for the third term of the four.
pub open spec fn sums_to_third(
    fpu: spec_fn(Op) -> Sample,
    pos_0: Sample,
    pos_1: Sample,
    m_0: Sample,
    m_1: Sample,
) -> bool {
    hermite_sum(fpu, (ZERO, ZERO, ONE, ZERO), pos_0, pos_1, m_0, m_1) == pos_1
}

/// Linear interpolation meets its left sample at phase zero and its right
/// sample at phase one, in single precision on the constants and in any
/// arithmetic that blends so.
pub proof fn lemma_lerp_meets_both_samples(fpu: spec_fn(Op) -> Sample, start: Sample, end: Sample)
    requires
        is_single_on_constants(fpu),
        blends_to_start(fpu, start, end),
        blends_to_end(fpu, start, end),
    ensures
        lerp_value(fpu, start, end, ZERO) == start,
        lerp_value(fpu, start, end, ONE) == end,
{
}

/// The cubic without tangents meets its left sample at phase zero and its
/// right sample at phase one, under the same.
pub proof fn lemma_tangentless_hermite_meets_both_samples(
    fpu: spec_fn(Op) -> Sample,
    start: Sample,
    end: Sample,
)
    requires
        is_single_on_constants(fpu),
        blends_to_start(fpu, start, end),
        blends_to_end(fpu, start, end),
    ensures
        tangentless_hermite_value(fpu, start, end, ZERO) == start,
        tangentless_hermite_value(fpu, start, end, ONE) == end,
{
}

/// In single precision on the constants, the weights of the cubic Hermite
/// basis are one for the first position and zero for the rest at phase
/// zero, and one for the second position and zero for the rest at phase
/// one: the tangents have no weight at either end.
pub proof fn lemma_hermite_weights_at_the_ends(fpu: spec_fn(Op) -> Sample)
    requires
        is_single_on_constants(fpu),
    ensures
        hermite_weights(fpu, ZERO) == (ONE, ZERO, ZERO, ZERO),
        hermite_weights(fpu, ONE) == (ZERO, ZERO, ONE, ZERO),
{
}

/// The cubic Hermite basis meets its first position at phase zero and its
/// second at phase one, in single precision on the constants and in any
/// arithmetic in which the terms of weight zero add nothing.
pub proof fn lemma_even_hermite_meets_both_positions(
    fpu: spec_fn(Op) -> Sample,
    pos_0: Sample,
    pos_1: Sample,
    m_0: Sample,
    m_1: Sample,
)
    requires
        is_single_on_constants(fpu),
        sums_to_first(fpu, pos_0, pos_1, m_0, m_1),
        sums_to_third(fpu, pos_0, pos_1, m_0, m_1),
    ensures
        even_hermite_value(fpu, pos_0, pos_1, m_0, m_1, ZERO) == pos_0,
        even_hermite_value(fpu, pos_0, pos_1, m_0, m_1, ONE) == pos_1,
{
    lemma_hermite_weights_at_the_ends(fpu);
}

/// The interpolation kernels.
#[derive(Clone, Copy, Debug, PartialEq, Eq, Structural)]
pub enum Kernel {
    PiecewiseConstant,
    Linear,
    TangentlessHermite,
    CatmullRomSpline,
}

/// A name that stands for no kernel.
#[derive(Clone, Copy, Debug, PartialEq, Eq, Structural)]
pub struct UnknownKernel;

/// Why a pass was not made.
#[derive(Clone, Copy, Debug, PartialEq, Eq, Structural)]
pub enum ResampleError {
    /// The name stands for no kernel.
    UnknownKernel,
    /// The virtual index came to a place from which a step of the ratio
    /// takes it no further.
    Stalled,
}

/// A capital Latin letter as its small letter, any other character as it is.
pub open spec fn lower(c: char) -> char {
    if 'A' <= c && c <= 'Z' {
        ((c as u8) + 32) as char
    } else {
        c
    }
}

/// A text with its capital Latin letters made small.
pub open spec fn lowered(text: Seq<char>) -> Seq<char> {
    Seq::new(text.len(), |i: int| lower(text[i]))
}

fn to_lower(c: char) -> (r: char)
    ensures
        r == lower(c),
{
    if 'A' <= c && c <= 'Z' {
        let b: u8 = c as u8;
        (b + 32) as char
    } else {
        c
    }
}

/// `name` with its capital Latin letters made small.
fn to_lowered(name: &str) -> (folded: Vec<char>)
    ensures
        folded@ == lowered(name@),
{
    let chars: Vec<char> = chars_of(name);
    let mut folded: Vec<char> = Vec::new();
    let mut i: usize = 0;
    while i < chars.len()
        invariant
            chars@ == name@,
            i <= chars.len(),
            folded.len() == i,
            forall|j: int| 0 <= j < i ==> folded[j] == lower(name@[j]),
        decreases chars.len() - i,
    {
        folded.push(to_lower(chars[i]));
        i = i + 1;
    }
    assert(folded@ =~= lowered(name@));
    folded
}

/// Whether `chars` spell `word`.
fn spells(chars: &Vec<char>, word: &str) -> (r: bool)
    ensures
        r == (chars@ == word@),
{
    let word: Vec<char> = chars_of(word);
    let r = chars.len() == word.len() && has_word_at(chars, 0, &word);
    assert(chars@.skip(0) =~= chars@);
    assert(r ==> chars@ =~= word@);
    r
}

impl Kernel {
    /// The kernel that a name stands for. Case does not count.
    pub open spec fn named(name: Seq<char>) -> Option<Kernel> {
        let word = lowered(name);
        if word == "lerp"@ || word == "linear"@ || word == "l"@ {
            Some(Kernel::Linear)
        } else if word == "piecewise_constant"@ || word == "piecewise"@ || word == "piece"@
            || word == "p"@ {
            Some(Kernel::PiecewiseConstant)
        } else if word == "tangentless_hermite"@ || word == "th"@ {
            Some(Kernel::TangentlessHermite)
        } else if word == "catmull_rom"@ || word == "cat"@ || word == "cr"@ {
            Some(Kernel::CatmullRomSpline)
        } else {
            None
        }
    }

    /// Resolves the name of a kernel.
    pub fn from_name(name: &str) -> (r: Result<Kernel, UnknownKernel>)
        ensures
            r == match Kernel::named(name@) {
                Some(kernel) => Ok::<Kernel, UnknownKernel>(kernel),
                None => Err::<Kernel, UnknownKernel>(UnknownKernel),
            },
    {
        let word: Vec<char> = to_lowered(name);
        if spells(&word, "lerp") || spells(&word, "linear") || spells(&word, "l") {
            Ok(Kernel::Linear)
        } else if spells(&word, "piecewise_constant") || spells(&word, "piecewise") || spells(
            &word,
            "piece",
        ) || spells(&word, "p") {
            Ok(Kernel::PiecewiseConstant)
        } else if spells(&word, "tangentless_hermite") || spells(&word, "th") {
            Ok(Kernel::TangentlessHermite)
        } else if spells(&word, "catmull_rom") || spells(&word, "cat") || spells(&word, "cr") {
            Ok(Kernel::CatmullRomSpline)
        } else {
            Err(UnknownKernel)
        }
    }
}

} // verus!
