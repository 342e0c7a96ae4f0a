use vstd::prelude::*;
use crate::algorithms::{
    answers, even_hermite, even_hermite_value, follows, lerp, lerp_value, piecewise_constant,
    piecewise_constant_value, tangent, tangent_value, tangentless_hermite,
    tangentless_hermite_value, Kernel, Op, ResampleError, Sample, ZERO,
};
use crate::fraction::Fraction;
use crate::single::{floor_of, fract, fract_of, is_position, is_whole, locate};
use super::engine::{Resampler, ResamplerView};

verus! {

/// The virtual index before output sample `j`: zero at first, and one step
/// of the ratio further with each sample, each step added in the arithmetic
/// at hand.
pub open spec fn cursor_at(fpu: spec_fn(Op) -> Sample, ratio: Sample, j: nat) -> Sample
    decreases j,
{
    if j == 0 {
        ZERO
    } else {
        fpu(Op::Add(cursor_at(fpu, ratio, (j - 1) as nat), ratio))
    }
}

/// Whether the step after sample `j` takes the virtual index further.
pub open spec fn advances(fpu: spec_fn(Op) -> Sample, ratio: Sample, j: nat) -> bool {
    cursor_at(fpu, ratio, j) < cursor_at(fpu, ratio, j + 1)
}

/// Whether a pass with `kernel` makes a sample at the index `f` of an input
/// of `n`. A kernel on two neighbours does so strictly before the last
/// sample, where the right neighbour is there; the Catmull-Rom spline does
/// so up to and including the last sample, of at least two.
pub open spec fn within(kernel: Kernel, f: Sample, n: nat) -> bool {
    match kernel {
        Kernel::CatmullRomSpline => n >= 2 && is_position(f) && (floor_of(f) + 1 < n || (floor_of(
            f,
        ) + 1 == n && is_whole(f))),
        _ => is_position(f) && floor_of(f) + 1 < n,
    }
}

/// The input as the Catmull-Rom pass reads it: its last sample stands twice
/// more behind it.
pub open spec fn padded(input: Seq<Sample>) -> Seq<Sample> {
    input + Seq::new(2, |j: int| input.last())
}

/// The tangent that a step of the Catmull-Rom pass computes at the index
/// `f`: the central difference across the sample after its left neighbour.
pub open spec fn tangent_at(fpu: spec_fn(Op) -> Sample, input: Seq<Sample>, f: Sample) -> Sample {
    let k = floor_of(f) as int;
    tangent_value(fpu, padded(input)[k], padded(input)[k + 2])
}

/// The tangent that step `j` of the Catmull-Rom pass finds behind it: the
/// one that the step before computed, zero at the first step.
pub open spec fn tangent_before(
    fpu: spec_fn(Op) -> Sample,
    input: Seq<Sample>,
    ratio: Sample,
    j: nat,
) -> Sample {
    if j == 0 {
        ZERO
    } else {
        tangent_at(fpu, input, cursor_at(fpu, ratio, (j - 1) as nat))
    }
}

/// Output sample `j` of a pass with `kernel`. With `f` the virtual index
/// before it, `k` the whole part of `f` and `t` its fractional part, it is
/// the kernel's value at `t` on input sample `k` and the one after it; for
/// the Catmull-Rom spline, with the tangent found behind and the tangent
/// computed at this step.
pub open spec fn sample_at(
    fpu: spec_fn(Op) -> Sample,
    kernel: Kernel,
    input: Seq<Sample>,
    ratio: Sample,
    j: nat,
) -> Sample {
    let f = cursor_at(fpu, ratio, j);
    let k = floor_of(f) as int;
    let t = fract_of(f);
    match kernel {
        Kernel::PiecewiseConstant => piecewise_constant_value(input[k], input[k + 1], t),
        Kernel::Linear => lerp_value(fpu, input[k], input[k + 1], t),
        Kernel::TangentlessHermite => tangentless_hermite_value(fpu, input[k], input[k + 1], t),
        Kernel::CatmullRomSpline => even_hermite_value(
            fpu,
            padded(input)[k],
            padded(input)[k + 1],
            tangent_before(fpu, input, ratio, j),
            tangent_at(fpu, input, f),
            t,
        ),
    }
}

/// The first `len` samples of a pass with `kernel`.
pub open spec fn output_of(
    fpu: spec_fn(Op) -> Sample,
    kernel: Kernel,
    input: Seq<Sample>,
    ratio: Sample,
    len: nat,
) -> Seq<Sample> {
    Seq::new(len, |j: int| sample_at(fpu, kernel, input, ratio, j as nat))
}

/// Whether the virtual index made a sample at each of its first `count`
/// places, each further on than the one before.
pub open spec fn runs_for(
    fpu: spec_fn(Op) -> Sample,
    kernel: Kernel,
    ratio: Sample,
    n: nat,
    count: nat,
) -> bool {
    &&& forall|j: nat| j < count ==> within(kernel, #[trigger] cursor_at(fpu, ratio, j), n)
    &&& forall|j: nat| j + 1 < count ==> #[trigger] advances(fpu, ratio, j)
}

/// Whether a pass with `kernel` makes `len` samples and no more: a sample
/// is made at each of the first `len` places of the virtual index, and none
/// at the place after them.
pub open spec fn ends_at(
    fpu: spec_fn(Op) -> Sample,
    kernel: Kernel,
    ratio: Sample,
    n: nat,
    len: nat,
) -> bool {
    &&& runs_for(fpu, kernel, ratio, n, len)
    &&& !within(kernel, cursor_at(fpu, ratio, len), n)
}

/// Whether the virtual index stalls behind sample `j`: a sample is due at
/// the place after it, and the step of the ratio did not take the index
/// further.
pub open spec fn stalls_at(
    fpu: spec_fn(Op) -> Sample,
    kernel: Kernel,
    ratio: Sample,
    n: nat,
    j: nat,
) -> bool {
    &&& runs_for(fpu, kernel, ratio, n, j + 1)
    &&& within(kernel, cursor_at(fpu, ratio, j + 1), n)
    &&& !advances(fpu, ratio, j)
}

/// A pass leaves everything as it was but the output, which it extends.
pub open spec fn extends_output(before: ResamplerView, after: ResamplerView) -> bool {
    &&& after == (ResamplerView { output_samples: after.output_samples, ..before })
    &&& before.output_samples.is_prefix_of(after.output_samples)
}

/// What a pass added to the output.
pub open spec fn produced_by(before: ResamplerView, after: ResamplerView) -> Seq<Sample> {
    after.output_samples.skip(before.output_samples.len() as int)
}

/// What one pass with `kernel` makes of a resampler. Where it succeeds, the
/// output grows by the samples of the pass and nothing else changes; where
/// the virtual index stalls, nothing changes at all. Which of the two it
/// is, how many samples are made and what they are is told for every
/// function that the arithmetic computes.
pub open spec fn resampled<A: Fn(Op) -> Sample>(
    before: ResamplerView,
    after: ResamplerView,
    kernel: Kernel,
    arithmetic: A,
    r: Result<(), ResampleError>,
) -> bool {
    let n = before.input_samples.len();
    let ratio = before.ratio.sample();
    let produced = produced_by(before, after);
    &&& match r {
        Ok(_) => extends_output(before, after),
        Err(e) => e == ResampleError::Stalled && after == before,
    }
    &&& forall|fpu: spec_fn(Op) -> Sample| #[trigger]
        follows(arithmetic, fpu) ==> match r {
            Ok(_) => {
                &&& ends_at(fpu, kernel, ratio, n, produced.len())
                &&& produced == output_of(fpu, kernel, before.input_samples, ratio, produced.len())
            },
            Err(_) => exists|j: nat| stalls_at(fpu, kernel, ratio, n, j),
        }
}

/// Whether the state of a pass after `j` samples is what the arithmetic
/// makes it: the index, the tangent carried along, and the samples so far.
pub open spec fn keeps_track<A: Fn(Op) -> Sample>(
    arithmetic: A,
    kernel: Kernel,
    input: Seq<Sample>,
    ratio: Sample,
    j: nat,
    f: Sample,
    m_current: Sample,
    produced: Seq<Sample>,
) -> bool {
    forall|fpu: spec_fn(Op) -> Sample| #[trigger]
        follows(arithmetic, fpu) ==> {
            &&& f == cursor_at(fpu, ratio, j)
            &&& kernel == Kernel::CatmullRomSpline ==> m_current == tangent_before(
                fpu,
                input,
                ratio,
                j,
            )
            &&& runs_for(fpu, kernel, ratio, input.len(), j)
            &&& j > 0 ==> advances(fpu, ratio, (j - 1) as nat)
            &&& produced == output_of(fpu, kernel, input, ratio, j)
        }
}

/// Every sample of a pass has the input samples that it reads: both its
/// neighbours in the input, or for the Catmull-Rom spline its neighbours up
/// to two ahead in the padded input.
pub proof fn lemma_reads_the_input(kernel: Kernel, f: Sample, input: Seq<Sample>)
    requires
        within(kernel, f, input.len()),
    ensures
        kernel != Kernel::CatmullRomSpline ==> floor_of(f) + 1 < input.len(),
        kernel == Kernel::CatmullRomSpline ==> floor_of(f) + 2 < padded(input).len(),
{
}

/// An input of fewer than two samples makes no output, whatever the kernel,
/// the ratio and the arithmetic.
pub proof fn lemma_short_input_produces_nothing(
    fpu: spec_fn(Op) -> Sample,
    kernel: Kernel,
    ratio: Sample,
    n: nat,
)
    requires
        n <= 1,
    ensures
        ends_at(fpu, kernel, ratio, n, 0),
{
}

/// A pass makes one count of samples and no other.
pub proof fn lemma_one_count(
    fpu: spec_fn(Op) -> Sample,
    kernel: Kernel,
    ratio: Sample,
    n: nat,
    len: nat,
    other: nat,
)
    requires
        ends_at(fpu, kernel, ratio, n, len),
        ends_at(fpu, kernel, ratio, n, other),
    ensures
        len == other,
{
    if len < other {
        assert(within(kernel, cursor_at(fpu, ratio, len), n));
    }
    if other < len {
        assert(within(kernel, cursor_at(fpu, ratio, other), n));
    }
}

/// A pass that ends does not stall, and a pass that stalls does not end.
pub proof fn lemma_ends_or_stalls(
    fpu: spec_fn(Op) -> Sample,
    kernel: Kernel,
    ratio: Sample,
    n: nat,
    len: nat,
    j: nat,
)
    requires
        ends_at(fpu, kernel, ratio, n, len),
    ensures
        !stalls_at(fpu, kernel, ratio, n, j),
{
    if stalls_at(fpu, kernel, ratio, n, j) {
        if len <= j {
            assert(within(kernel, cursor_at(fpu, ratio, len), n));
        } else if len == j + 1 {
        } else {
            assert(advances(fpu, ratio, j));
        }
    }
}

/// Where the virtual index falls on the multiples of a fraction, place by
/// place up to the end of the pass, a pass between two neighbours makes as
/// many samples as there are multiples strictly before the last input
/// sample: the quotient of the distance to that sample and the fraction,
/// rounded up.
pub proof fn lemma_two_point_len_of_exact_index(
    fpu: spec_fn(Op) -> Sample,
    kernel: Kernel,
    ratio: Sample,
    n: nat,
    len: nat,
    fraction: Fraction,
)
    requires
        kernel != Kernel::CatmullRomSpline,
        n >= 1,
        fraction.wf(),
        ends_at(fpu, kernel, ratio, n, len),
        forall|j: nat|
            j <= len ==> is_position(#[trigger] cursor_at(fpu, ratio, j)) && floor_of(
                cursor_at(fpu, ratio, j),
            ) == fraction.index_at(j),
    ensures
        len == fraction.steps_before((n - 1) as nat),
        ((n - 1) * fraction.den) % (fraction.num as int) == 0 ==> len == ((n - 1) * fraction.den)
            / (fraction.num as int),
{
    let span = (n - 1) as nat;
    let steps = fraction.steps_before(span);
    fraction.lemma_steps_before_counts(span, len);
    assert(is_position(cursor_at(fpu, ratio, len)));
    if steps < len {
        fraction.lemma_steps_before_counts(span, steps);
        assert(within(kernel, cursor_at(fpu, ratio, steps), n));
    }
    if ((n - 1) * fraction.den) % (fraction.num as int) == 0 {
        fraction.lemma_steps_before_exact(span);
    }
}

/// Where the virtual index falls on the multiples of a fraction, place by
/// place up to the end of the pass, the Catmull-Rom pass makes as many
/// samples as there are multiples up to and including the last input
/// sample: the quotient of the distance to that sample and the fraction,
/// rounded down, and one more.
pub proof fn lemma_catmull_rom_len_of_exact_index(
    fpu: spec_fn(Op) -> Sample,
    ratio: Sample,
    n: nat,
    len: nat,
    fraction: Fraction,
)
    requires
        n >= 2,
        fraction.wf(),
        ends_at(fpu, Kernel::CatmullRomSpline, ratio, n, len),
        forall|j: nat|
            j <= len ==> is_position(#[trigger] cursor_at(fpu, ratio, j)) && floor_of(
                cursor_at(fpu, ratio, j),
            ) == fraction.index_at(j) && is_whole(cursor_at(fpu, ratio, j))
                == fraction.is_whole_at(j),
    ensures
        len == fraction.steps_through((n - 1) as nat),
{
    let span = (n - 1) as nat;
    let steps = fraction.steps_through(span);
    fraction.lemma_steps_through_counts(span, len);
    assert(is_position(cursor_at(fpu, ratio, len)));
    if steps < len {
        fraction.lemma_steps_through_counts(span, steps);
        assert(within(Kernel::CatmullRomSpline, cursor_at(fpu, ratio, steps), n));
    }
}

/// A pass between two neighbours makes half as many samples, rounded up,
/// at twice the fraction, where the virtual index falls on the multiples of
/// the fraction in both.
pub proof fn lemma_doubling_halves(fraction: Fraction, twice: Fraction, n: nat)
    requires
        n >= 1,
        fraction.wf(),
        twice.wf(),
        twice.num == 2 * fraction.num,
        twice.den == fraction.den,
    ensures
        twice.steps_before((n - 1) as nat) == (fraction.steps_before((n - 1) as nat) + 1) / 2,
{
    fraction.lemma_doubling_halves(twice, (n - 1) as nat);
}

/// With a ratio of one, where the virtual index falls on the whole numbers,
/// a pass between two neighbours gives the input back without its last
/// sample, provided that the kernel returns its left sample at phase zero.
/// The nearest-neighbour hold always does.
pub proof fn lemma_unit_ratio_reproduces_input(
    fpu: spec_fn(Op) -> Sample,
    kernel: Kernel,
    input: Seq<Sample>,
    ratio: Sample,
    len: nat,
)
    requires
        kernel != Kernel::CatmullRomSpline,
        input.len() >= 1,
        ends_at(fpu, kernel, ratio, input.len(), len),
        forall|j: nat|
            j <= len ==> is_position(#[trigger] cursor_at(fpu, ratio, j)) && floor_of(
                cursor_at(fpu, ratio, j),
            ) == j && fract_of(cursor_at(fpu, ratio, j)) == ZERO,
        kernel == Kernel::Linear ==> forall|start: Sample, end: Sample| #[trigger]
            lerp_value(fpu, start, end, ZERO) == start,
        kernel == Kernel::TangentlessHermite ==> forall|start: Sample, end: Sample| #[trigger]
            tangentless_hermite_value(fpu, start, end, ZERO) == start,
    ensures
        len == input.len() - 1,
        output_of(fpu, kernel, input, ratio, len) == input.drop_last(),
{
    let one = Fraction { num: 1, den: 1 };
    assert forall|j: nat| j <= len implies is_position(#[trigger] cursor_at(fpu, ratio, j))
        && floor_of(cursor_at(fpu, ratio, j)) == one.index_at(j) by {
        one.lemma_unit_ratio(j);
    }
    lemma_two_point_len_of_exact_index(fpu, kernel, ratio, input.len(), len, one);
    one.lemma_unit_ratio((input.len() - 1) as nat);
    let produced = output_of(fpu, kernel, input, ratio, len);
    assert forall|i: int| 0 <= i < produced.len() implies produced[i] == input[i] by {
        assert(floor_of(cursor_at(fpu, ratio, i as nat)) == i);
    }
    assert(produced =~= input.drop_last());
}

impl Resampler {
    /// Runs one pass with the kernel that `interpolation_type` names, and
    /// appends what it produces to the output. A name that stands for no
    /// kernel is turned down before anything is touched.
    pub fn do_resample<A: Fn(Op) -> Sample>(
        &mut self,
        interpolation_type: String,
        arithmetic: A,
    ) -> (r: Result<(), ResampleError>)
        requires
            answers(arithmetic),
        ensures
            match Kernel::named(interpolation_type@) {
                Some(kernel) => resampled(old(self)@, final(self)@, kernel, arithmetic, r),
                None => {
                    &&& r == Err::<(), ResampleError>(ResampleError::UnknownKernel)
                    &&& final(self)@ == old(self)@
                },
            },
            final(self)@.input_samples == old(self)@.input_samples,
            old(self)@.input_samples.len() <= 1 ==> final(self)@ == old(self)@,
    {
        match Kernel::from_name(interpolation_type.as_str()) {
            Ok(kernel) => self.resample(kernel, arithmetic),
            Err(_) => Err(ResampleError::UnknownKernel),
        }
    }

    /// Runs one pass with `kernel` and appends what it produces to the
    /// output. The input is as before when the pass ends, and an input of
    /// fewer than two samples produces nothing.
    pub fn resample<A: Fn(Op) -> Sample>(&mut self, kernel: Kernel, arithmetic: A) -> (r: Result<
        (),
        ResampleError,
    >)
        requires
            answers(arithmetic),
        ensures
            resampled(old(self)@, final(self)@, kernel, arithmetic, r),
            final(self)@.input_samples == old(self)@.input_samples,
            old(self)@.input_samples.len() <= 1 ==> r is Ok && final(self)@ == old(self)@,
    {
        match kernel {
            Kernel::PiecewiseConstant => self.do_piecewise_constant(arithmetic),
            Kernel::Linear => self.do_lerp(arithmetic),
            Kernel::TangentlessHermite => self.do_tangentless_hermite(arithmetic),
            Kernel::CatmullRomSpline => self.do_catmull_rom_spline(arithmetic),
        }
    }

    /// Nearest-neighbour hold between each two neighbours.
    pub fn do_piecewise_constant<A: Fn(Op) -> Sample>(&mut self, arithmetic: A) -> (r: Result<
        (),
        ResampleError,
    >)
        requires
            answers(arithmetic),
        ensures
            resampled(old(self)@, final(self)@, Kernel::PiecewiseConstant, arithmetic, r),
            final(self)@.input_samples == old(self)@.input_samples,
            old(self)@.input_samples.len() <= 1 ==> r is Ok && final(self)@ == old(self)@,
    {
        self.do_pass(Kernel::PiecewiseConstant, arithmetic)
    }

    /// Linear interpolation between each two neighbours.
    pub fn do_lerp<A: Fn(Op) -> Sample>(&mut self, arithmetic: A) -> (r: Result<(), ResampleError>)
        requires
            answers(arithmetic),
        ensures
            resampled(old(self)@, final(self)@, Kernel::Linear, arithmetic, r),
            final(self)@.input_samples == old(self)@.input_samples,
            old(self)@.input_samples.len() <= 1 ==> r is Ok && final(self)@ == old(self)@,
    {
        self.do_pass(Kernel::Linear, arithmetic)
    }

    /// Cubic interpolation between each two neighbours that is flat at both.
    pub fn do_tangentless_hermite<A: Fn(Op) -> Sample>(&mut self, arithmetic: A) -> (r: Result<
        (),
        ResampleError,
    >)
        requires
            answers(arithmetic),
        ensures
            resampled(old(self)@, final(self)@, Kernel::TangentlessHermite, arithmetic, r),
            final(self)@.input_samples == old(self)@.input_samples,
            old(self)@.input_samples.len() <= 1 ==> r is Ok && final(self)@ == old(self)@,
    {
        self.do_pass(Kernel::TangentlessHermite, arithmetic)
    }

    /// Catmull-Rom cubic spline interpolation. The pass looks two samples
    /// ahead, and past the end of the input it finds the last sample again;
    /// the input itself is never touched. Each step computes the tangent
    /// ahead of it and takes the tangent behind it from the step before;
    /// the first step starts from a tangent of zero.
    pub fn do_catmull_rom_spline<A: Fn(Op) -> Sample>(&mut self, arithmetic: A) -> (r: Result<
        (),
        ResampleError,
    >)
        requires
            answers(arithmetic),
        ensures
            resampled(old(self)@, final(self)@, Kernel::CatmullRomSpline, arithmetic, r),
            final(self)@.input_samples == old(self)@.input_samples,
            old(self)@.input_samples.len() <= 1 ==> r is Ok && final(self)@ == old(self)@,
    {
        self.do_pass(Kernel::CatmullRomSpline, arithmetic)
    }

    /// Where the index `f` lies in the input, if a pass with `kernel` makes
    /// a sample there: the whole part of `f`.
    fn place(&self, kernel: Kernel, f: Sample) -> (at: Option<usize>)
        ensures
            at is Some <==> within(kernel, f, self@.input_samples.len()),
            at is Some ==> at->Some_0 == floor_of(f),
    {
        let n: usize = self.input_samples.len();
        if n == 0 {
            return None;
        }
        match locate(f, n - 1) {
            None => None,
            Some((k, whole)) => {
                let inside = match kernel {
                    Kernel::CatmullRomSpline => n >= 2 && (k < n - 1 || whole),
                    _ => k < n - 1,
                };
                if inside {
                    Some(k)
                } else {
                    None
                }
            },
        }
    }

    /// The input sample `ahead` places after sample `k`, as the Catmull-Rom
    /// pass reads it: the last sample where that lies past the end.
    fn padded_at(&self, k: usize, ahead: usize) -> (value: Sample)
        requires
            k < self@.input_samples.len(),
            ahead <= 2,
        ensures
            value == padded(self@.input_samples)[k + ahead],
    {
        let last: usize = self.input_samples.len() - 1;
        if last - k >= ahead {
            self.input_samples[k + ahead]
        } else {
            self.input_samples[last]
        }
    }

    /// The one sample of a pass with `kernel` at the index `f`, whose whole
    /// part is `k`, with the tangent `m_prev` behind it; and, from the
    /// Catmull-Rom spline, the tangent it computed, for the step after it.
    fn sample<A: Fn(Op) -> Sample>(
        &self,
        kernel: Kernel,
        f: Sample,
        k: usize,
        m_prev: Sample,
        arithmetic: &A,
    ) -> (made: (Sample, Sample))
        requires
            answers(*arithmetic),
            within(kernel, f, self@.input_samples.len()),
            k == floor_of(f),
        ensures
            forall|fpu: spec_fn(Op) -> Sample| #[trigger]
                follows(*arithmetic, fpu) ==> {
                    let input = self@.input_samples;
                    let t = fract_of(f);
                    match kernel {
                        Kernel::PiecewiseConstant => made.0 == piecewise_constant_value(
                            input[k as int],
                            input[k + 1],
                            t,
                        ),
                        Kernel::Linear => made.0 == lerp_value(
                            fpu,
                            input[k as int],
                            input[k + 1],
                            t,
                        ),
                        Kernel::TangentlessHermite => made.0 == tangentless_hermite_value(
                            fpu,
                            input[k as int],
                            input[k + 1],
                            t,
                        ),
                        Kernel::CatmullRomSpline => made.1 == tangent_at(fpu, input, f) && made.0
                            == even_hermite_value(
                            fpu,
                            padded(input)[k as int],
                            padded(input)[k + 1],
                            m_prev,
                            made.1,
                            t,
                        ),
                    }
                },
    {
        let t: Sample = match fract(f) {
            Some(t) => t,
            None => ZERO,
        };
        assert(k < self.input_samples.len());
        assert(kernel != Kernel::CatmullRomSpline ==> k + 1 < self.input_samples.len());
        match kernel {
            Kernel::PiecewiseConstant => (
                piecewise_constant(self.input_samples[k], self.input_samples[k + 1], t),
                ZERO,
            ),
            Kernel::Linear => (
                lerp(self.input_samples[k], self.input_samples[k + 1], t, arithmetic),
                ZERO,
            ),
            Kernel::TangentlessHermite => (
                tangentless_hermite(
                    self.input_samples[k],
                    self.input_samples[k + 1],
                    t,
                    arithmetic,
                ),
                ZERO,
            ),
            Kernel::CatmullRomSpline => {
                let pos_0: Sample = self.padded_at(k, 0);
                let pos_1: Sample = self.padded_at(k, 1);
                let ahead: Sample = self.padded_at(k, 2);
                let m_current: Sample = tangent(pos_0, ahead, arithmetic);
                (even_hermite(pos_0, pos_1, m_prev, m_current, t, arithmetic), m_current)
            },
        }
    }

    /// The pass that all four kernels share. The virtual index starts at
    /// zero and moves by the ratio; a sample is made at each place where
    /// the kernel finds what it reads. Where a step does not take the index
    /// further, the pass is given up and the output is as it was.
    fn do_pass<A: Fn(Op) -> Sample>(&mut self, kernel: Kernel, arithmetic: A) -> (r: Result<
        (),
        ResampleError,
    >)
        requires
            answers(arithmetic),
        ensures
            resampled(old(self)@, final(self)@, kernel, arithmetic, r),
            final(self)@.input_samples == old(self)@.input_samples,
            old(self)@.input_samples.len() <= 1 ==> r is Ok && final(self)@ == old(self)@,
    {
        let ghost before = self@;
        let ghost input = before.input_samples;
        let first: usize = self.output_samples.len();
        let ratio: Sample = self.ratio.bits();
        let mut f: Sample = ZERO;
        let mut at: Option<usize> = self.place(kernel, f);
        let mut m_current: Sample = ZERO;
        let ghost mut j: nat = 0;
        let ghost mut produced: Seq<Sample> = Seq::empty();
        proof {
            assert(self@.output_samples =~= before.output_samples + produced);
            assert forall|fpu: spec_fn(Op) -> Sample| #[trigger]
                follows(arithmetic, fpu) implies produced == output_of(
                fpu,
                kernel,
                input,
                ratio,
                0,
            ) by {
                assert(produced =~= output_of(fpu, kernel, input, ratio, 0));
            }
        }
        while at.is_some()
            invariant
                answers(arithmetic),
                before == old(self)@,
                input == before.input_samples,
                ratio == before.ratio.sample(),
                first == before.output_samples.len(),
                self@ == (ResamplerView {
                    output_samples: before.output_samples + produced,
                    ..before
                }),
                produced.len() == j,
                at is Some <==> within(kernel, f, input.len()),
                at is Some ==> at->Some_0 == floor_of(f),
                at is Some ==> input.len() >= 2,
                j > 0 ==> input.len() >= 2,
                keeps_track(arithmetic, kernel, input, ratio, j, f, m_current, produced),
            decreases u32::MAX - f,
        {
            let k: usize = at.unwrap();
            let (value, m_next) = self.sample(kernel, f, k, m_current, &arithmetic);
            let next: Sample = arithmetic(Op::Add(f, ratio));
            let next_at: Option<usize> = self.place(kernel, next);
            if next_at.is_some() && next <= f {
                self.output_samples.truncate(first);
                proof {
                    assert(self@.output_samples =~= before.output_samples);
                    assert forall|fpu: spec_fn(Op) -> Sample| #[trigger]
                        follows(arithmetic, fpu) implies exists|i: nat|
                        stalls_at(fpu, kernel, ratio, input.len(), i) by {
                        assert(next == cursor_at(fpu, ratio, j + 1));
                        assert(runs_for(fpu, kernel, ratio, input.len(), j + 1)) by {
                            assert forall|i: nat| i + 1 < j + 1 implies #[trigger] advances(
                                fpu,
                                ratio,
                                i,
                            ) by {
                                if i + 1 < j {
                                } else {
                                    assert(i == (j - 1) as nat);
                                }
                            }
                        }
                        assert(stalls_at(fpu, kernel, ratio, input.len(), j));
                    }
                }
                return Err(ResampleError::Stalled);
            }
            self.output_samples.push(value);
            proof {
                let ghost longer = produced.push(value);
                assert(self@.output_samples =~= before.output_samples + longer);
                assert forall|fpu: spec_fn(Op) -> Sample| #[trigger]
                    follows(arithmetic, fpu) implies {
                    &&& next == cursor_at(fpu, ratio, j + 1)
                    &&& kernel == Kernel::CatmullRomSpline ==> m_next == tangent_before(
                        fpu,
                        input,
                        ratio,
                        j + 1,
                    )
                    &&& runs_for(fpu, kernel, ratio, input.len(), j + 1)
                    &&& (next_at is Some ==> advances(fpu, ratio, j))
                    &&& longer == output_of(fpu, kernel, input, ratio, j + 1)
                } by {
                    assert(next == cursor_at(fpu, ratio, j + 1));
                    assert(value == sample_at(fpu, kernel, input, ratio, j));
                    assert(longer =~= output_of(fpu, kernel, input, ratio, j + 1));
                    assert forall|i: nat| i + 1 < j + 1 implies #[trigger] advances(
                        fpu,
                        ratio,
                        i,
                    ) by {
                        if i + 1 < j {
                        } else {
                            assert(i == (j - 1) as nat);
                        }
                    }
                }
                produced = longer;
                j = j + 1;
            }
            if next_at.is_none() {
                proof {
                    assert(produced_by(before, self@) =~= produced);
                }
                return Ok(());
            }
            f = next;
            at = next_at;
            m_current = m_next;
        }
        proof {
            assert(produced_by(before, self@) =~= produced);
            assert(j == 0 ==> self@.output_samples =~= before.output_samples);
        }
        Ok(())
    }
}

} // verus!
