//! Benchmark results as Criterion reports them.
use crate::float::Float64;
use vstd::prelude::*;

verus! {

/// A number with the interval that it lies in.
#[derive(Debug)]
pub struct ConfidenceInterval {
    pub estimate: Float64,
    pub lower_bound: Float64,
    pub upper_bound: Float64,
    pub unit: String,
}

/// How much work one iteration does.
#[derive(Debug)]
pub struct Throughput {
    pub per_iteration: u64,
    pub unit: String,
}

/// How a result differs from the one before.
#[derive(Debug)]
pub enum ChangeType {
    NoChange,
    Improved,
    Regressed,
}

/// By how much a result differs from the one before.
#[derive(Debug)]
pub struct ChangeDetails {
    pub mean: ConfidenceInterval,
    pub median: ConfidenceInterval,
    pub change: ChangeType,
}

/// Raw Criterion benchmark data.
#[derive(Debug)]
pub struct BenchmarkComplete {
    pub id: String,
    pub report_directory: String,
    pub iteration_count: Vec<u64>,
    pub measured_values: Vec<Float64>,
    pub unit: String,
    pub throughput: Vec<Throughput>,
    pub typical: ConfidenceInterval,
    pub mean: ConfidenceInterval,
    pub median: ConfidenceInterval,
    pub median_abs_dev: ConfidenceInterval,
    pub slope: Option<ConfidenceInterval>,
    pub change: Option<ChangeDetails>,
}

/// Raw Criterion benchmark group data.
#[derive(Debug)]
pub struct BenchmarkGroupComplete {
    pub group_name: String,
    pub benchmarks: Vec<String>,
    pub report_directory: String,
}

/// Either raw benchmark or benchmark group data.
#[derive(Debug)]
pub enum RawCriterionData {
    /// Raw benchmark data.
    Benchmark(Box<BenchmarkComplete>),
    /// Raw benchmark group data.
    BenchmarkGroup(Box<BenchmarkGroupComplete>),
}

/// What came of one attempt to read the next value of the input.
#[derive(Debug)]
pub enum ReadEvent {
    /// A value.
    Value(RawCriterionData),
    /// The input ended before a value was complete.
    EndOfInput,
    /// The input holds something that is no value.
    Malformed,
}

/// What to do after an attempt to read the next value.
#[derive(Debug)]
pub enum ReadStep {
    /// Try to read one more value.
    More(Vec<RawCriterionData>),
    /// These are all the values.
    Done(Vec<RawCriterionData>),
    /// Refuse the input.
    Rejected,
}

/// A [`ReadStep`] as mathematical values.
pub ghost enum ReadStepView {
    More(Seq<RawCriterionData>),
    Done(Seq<RawCriterionData>),
    Rejected,
}

impl View for ReadStep {
    type V = ReadStepView;

    open spec fn view(&self) -> ReadStepView {
        match *self {
            ReadStep::More(data) => ReadStepView::More(data@),
            ReadStep::Done(data) => ReadStepView::Done(data@),
            ReadStep::Rejected => ReadStepView::Rejected,
        }
    }
}

/// What to do after an event, when `data` has been read before it.
pub open spec fn step(data: Seq<RawCriterionData>, event: ReadEvent) -> ReadStepView {
    match event {
        ReadEvent::Value(value) => ReadStepView::More(data.push(value)),
        ReadEvent::EndOfInput => ReadStepView::Done(data),
        ReadEvent::Malformed => ReadStepView::Rejected,
    }
}

/// What reading has come to after some events. Events after the last attempt change nothing.
pub open spec fn read(events: Seq<ReadEvent>) -> ReadStepView
    decreases events.len(),
{
    if events.len() == 0 {
        ReadStepView::More(Seq::empty())
    } else {
        match read(events.drop_last()) {
            ReadStepView::More(data) => step(data, events.last()),
            ended => ended,
        }
    }
}

impl RawCriterionData {
    /// Reads one value after the other: takes what was read so far and what came of the next
    /// attempt, and says how to go on. The end of the input ends the data.
    pub fn read_step(data: Vec<RawCriterionData>, event: ReadEvent) -> (next: ReadStep)
        ensures
            next@ == step(data@, event),
            match event {
                ReadEvent::Value(value) => next matches ReadStep::More(more) && more@
                    == data@.push(value),
                ReadEvent::EndOfInput => next matches ReadStep::Done(all) && all@ == data@,
                ReadEvent::Malformed => next is Rejected,
            },
    {
        match event {
            ReadEvent::Value(value) => {
                let mut data = data;
                data.push(value);
                ReadStep::More(data)
            },
            ReadEvent::EndOfInput => ReadStep::Done(data),
            ReadEvent::Malformed => ReadStep::Rejected,
        }
    }
}

/// An input of values that ends is read as those values, in their order.
pub proof fn lemma_read_all(values: Seq<RawCriterionData>)
    ensures
        read(values.map_values(|value: RawCriterionData| ReadEvent::Value(value)))
            == ReadStepView::More(values),
        read(
            values.map_values(|value: RawCriterionData| ReadEvent::Value(value)).push(
                ReadEvent::EndOfInput,
            ),
        ) == ReadStepView::Done(values),
        read(
            values.map_values(|value: RawCriterionData| ReadEvent::Value(value)).push(
                ReadEvent::Malformed,
            ),
        ) == ReadStepView::Rejected,
    decreases values.len(),
{
    let events = values.map_values(|value: RawCriterionData| ReadEvent::Value(value));
    if values.len() > 0 {
        lemma_read_all(values.drop_last());
        assert(events.drop_last() =~= values.drop_last().map_values(
            |value: RawCriterionData| ReadEvent::Value(value),
        ));
        assert(values.drop_last().push(values.last()) =~= values);
    } else {
        assert(values =~= Seq::empty());
    }
    assert(events.push(ReadEvent::EndOfInput).drop_last() =~= events);
    assert(events.push(ReadEvent::Malformed).drop_last() =~= events);
}

} // verus!
