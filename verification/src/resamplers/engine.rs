use vstd::prelude::*;
use crate::algorithms::{answers, follows, Op, Sample};
use crate::filedata::{extension, FileData};
use crate::ratio::{rate_error, Ratio, RatioError};

verus! {

/// The resampling engine: the samples read, the samples produced so far, and
/// the step between them.
pub struct Resampler {
    pub(super) input_samples: Vec<Sample>,
    pub(super) output_samples: Vec<Sample>,
    pub(super) ratio: Ratio,
    pub(super) input_datatype: FileData,
    pub(super) output_datatype: FileData,
    pub(super) source_name: String,
    pub(super) dest_name: String,
}

/// A resampler as contracts see it.
pub struct ResamplerView {
    pub input_samples: Seq<Sample>,
    pub output_samples: Seq<Sample>,
    pub ratio: Ratio,
    pub input_datatype: FileData,
    pub output_datatype: FileData,
    pub source_name: Seq<char>,
    pub dest_name: Seq<char>,
}

impl View for Resampler {
    type V = ResamplerView;

    open(super) spec fn view(&self) -> ResamplerView {
        ResamplerView {
            input_samples: self.input_samples@,
            output_samples: self.output_samples@,
            ratio: self.ratio,
            input_datatype: self.input_datatype,
            output_datatype: self.output_datatype,
            source_name: self.source_name@,
            dest_name: self.dest_name@,
        }
    }
}

impl Resampler {
    /// A resampler with no samples yet, for the source and the destination
    /// named. The step is the quotient of the two rates, input over output;
    /// rates that make no ratio are turned down.
    pub fn from_args<A: Fn(Op) -> Sample>(
        source: String,
        dest: String,
        input_ratio: Sample,
        output_ratio: Sample,
        arithmetic: &A,
    ) -> (r: Result<Resampler, RatioError>)
        requires
            answers(*arithmetic),
        ensures
            rate_error(input_ratio) matches Some(e) ==> r is Err && r->Err_0 == e,
            rate_error(input_ratio) is None ==> (rate_error(output_ratio) matches Some(e) ==> r
                is Err && r->Err_0 == e),
            forall|fpu: spec_fn(Op) -> Sample| #[trigger]
                follows(*arithmetic, fpu) ==> match Ratio::error_of_rates(
                    fpu,
                    input_ratio,
                    output_ratio,
                ) {
                    Some(e) => r is Err && r->Err_0 == e,
                    None => r is Ok && r->Ok_0@.ratio.sample() == fpu(
                        Op::Div(input_ratio, output_ratio),
                    ),
                },
            r is Ok ==> {
                &&& r->Ok_0@.input_samples == Seq::<Sample>::empty()
                &&& r->Ok_0@.output_samples == Seq::<Sample>::empty()
                &&& r->Ok_0@.ratio.wf()
                &&& r->Ok_0@.input_datatype == FileData::of_extension(extension(source@))
                &&& r->Ok_0@.output_datatype == FileData::of_extension(extension(dest@))
                &&& r->Ok_0@.source_name == source@
                &&& r->Ok_0@.dest_name == dest@
            },
    {
        match Ratio::from_rates(input_ratio, output_ratio, arithmetic) {
            Ok(ratio) => {
                proof {
                    use_type_invariant(&ratio);
                }
                let input_datatype = FileData::from_string(source.as_str());
                let output_datatype = FileData::from_string(dest.as_str());
                Ok(
                    Resampler {
                        input_samples: Vec::new(),
                        output_samples: Vec::new(),
                        ratio,
                        input_datatype,
                        output_datatype,
                        source_name: source,
                        dest_name: dest,
                    },
                )
            },
            Err(e) => Err(e),
        }
    }

    /// Replaces the step of the virtual index.
    pub fn set_ratio(&mut self, ratio: Ratio)
        ensures
            final(self)@ == (ResamplerView { ratio, ..old(self)@ }),
    {
        self.ratio = ratio;
    }

    /// Replaces the samples to read from.
    pub fn set_samples(&mut self, samples: Vec<Sample>)
        ensures
            final(self)@ == (ResamplerView { input_samples: samples@, ..old(self)@ }),
    {
        self.input_samples = samples;
    }

    /// The samples to read from.
    pub fn input_samples(&self) -> (samples: &Vec<Sample>)
        ensures
            samples@ == self@.input_samples,
    {
        &self.input_samples
    }

    /// The samples produced so far, in the order in which they were made.
    pub fn output_samples(&self) -> (samples: &Vec<Sample>)
        ensures
            samples@ == self@.output_samples,
    {
        &self.output_samples
    }

    /// The step of the virtual index.
    pub fn ratio(&self) -> (ratio: Ratio)
        ensures
            ratio == self@.ratio,
            ratio.wf(),
    {
        proof {
            use_type_invariant(&self.ratio);
        }
        self.ratio
    }

    /// The kind of place that the samples come from.
    pub fn input_datatype(&self) -> (kind: FileData)
        ensures
            kind == self@.input_datatype,
    {
        self.input_datatype
    }

    /// The kind of place that the output goes to.
    pub fn output_datatype(&self) -> (kind: FileData)
        ensures
            kind == self@.output_datatype,
    {
        self.output_datatype
    }

    /// The name of the place that the samples come from.
    pub fn source_name(&self) -> (name: &String)
        ensures
            name@ == self@.source_name,
    {
        &self.source_name
    }

    /// The name of the place that the output goes to.
    pub fn dest_name(&self) -> (name: &String)
        ensures
            name@ == self@.dest_name,
    {
        &self.dest_name
    }
}

} // verus!
