//! Metrics and their samples, as they are read and as they are merged.

use crate::labels::Labels;
use crate::text::str_eq;
use vstd::prelude::*;

verus! {

/// A sample as a process wrote it. The value and the timestamp are the bit
/// patterns of binary64 numbers; the timestamp counts seconds on the clock of
/// the process.
#[derive(Debug)]
pub struct Sample {
    pub name: String,
    pub labels: Labels,
    pub timestamp: u64,
    pub value: u64,
}

/// What a sample holds.
pub struct SampleView {
    pub name: Seq<char>,
    pub labels: Map<Seq<char>, Seq<char>>,
    pub timestamp: u64,
    pub value: u64,
}

impl View for Sample {
    type V = SampleView;

    open spec fn view(&self) -> SampleView {
        SampleView {
            name: self.name@,
            labels: self.labels@,
            timestamp: self.timestamp,
            value: self.value,
        }
    }
}

/// What a list of samples holds.
pub open spec fn samples_view(samples: Seq<Sample>) -> Seq<SampleView> {
    samples.map_values(|s: Sample| s@)
}

/// A metric with the samples that the processes wrote for it, in the order in
/// which they were read.
#[derive(Debug)]
pub struct Metric {
    pub name: String,
    pub documentation: String,
    pub typ: String,
    /// The multiprocess mode of a gauge, as the name of a file gave it last.
    pub multiprocess_mode: Option<String>,
    pub samples: Vec<Sample>,
}

/// What a metric holds.
pub struct MetricView {
    pub name: Seq<char>,
    pub documentation: Seq<char>,
    pub typ: Seq<char>,
    pub mode: Option<Seq<char>>,
    pub samples: Seq<SampleView>,
}

impl View for Metric {
    type V = MetricView;

    open spec fn view(&self) -> MetricView {
        MetricView {
            name: self.name@,
            documentation: self.documentation@,
            typ: self.typ@,
            mode: match self.multiprocess_mode {
                Some(mode) => Some(mode@),
                None => None,
            },
            samples: samples_view(self.samples@),
        }
    }
}

/// What a list of metrics holds.
pub open spec fn metrics_view(metrics: Seq<Metric>) -> Seq<MetricView> {
    metrics.map_values(|m: Metric| m@)
}

impl Metric {
    /// A metric without samples and without a multiprocess mode.
    pub fn new(name: String, documentation: String, typ: String) -> (metric: Metric)
        ensures
            metric@ == (MetricView {
                name: name@,
                documentation: documentation@,
                typ: typ@,
                mode: None,
                samples: Seq::empty(),
            }),
    {
        let metric = Metric {
            name,
            documentation,
            typ,
            multiprocess_mode: None,
            samples: Vec::new(),
        };
        assert(metric@.samples =~= Seq::empty());
        metric
    }

    /// Adds a sample behind the samples that the metric has.
    pub fn add_sample(&mut self, name: String, labels: Labels, value: u64, timestamp: u64)
        ensures
            final(self)@ == (MetricView {
                samples: old(self)@.samples.push(
                    SampleView { name: name@, labels: labels@, timestamp, value },
                ),
                ..old(self)@
            }),
    {
        let ghost before = samples_view(self.samples@);
        self.samples.push(Sample { name, labels, timestamp, value });
        assert(samples_view(self.samples@) =~= before.push(
            SampleView { name: name@, labels: labels@, timestamp, value },
        ));
    }
}

/// How the samples of a metric are merged.
#[derive(Clone, Copy, Debug, PartialEq, Eq, Structural)]
pub enum Policy {
    /// A gauge of which the least value counts, whatever the process.
    Min,
    /// A gauge of which the greatest value counts, whatever the process.
    Max,
    /// A gauge of which the values of the processes are added up.
    Sum,
    /// A gauge of which the value with the latest timestamp counts.
    MostRecent,
    /// A gauge of which each process keeps its own value: the fallback for a
    /// gauge of any other mode, and of none.
    All,
    /// A histogram: its buckets are added up and then made cumulative.
    Histogram,
    /// A counter, a summary, or any other type: the values are added up.
    Counter,
}

/// The policy for a metric of the type, and of the mode if it is a gauge.
pub open spec fn spec_policy(typ: Seq<char>, mode: Option<Seq<char>>) -> Policy {
    if typ == "gauge"@ {
        match mode {
            Some(m) => if m == "min"@ || m == "livemin"@ {
                Policy::Min
            } else if m == "max"@ || m == "livemax"@ {
                Policy::Max
            } else if m == "sum"@ || m == "livesum"@ {
                Policy::Sum
            } else if m == "mostrecent"@ || m == "livemostrecent"@ {
                Policy::MostRecent
            } else {
                Policy::All
            },
            None => Policy::All,
        }
    } else if typ == "histogram"@ {
        Policy::Histogram
    } else {
        Policy::Counter
    }
}

impl Policy {
    /// Whether samples that differ in the `pid` label alone fall together.
    pub open spec fn across_processes(self) -> bool {
        self is Min || self is Max || self is Sum || self is MostRecent
    }

    /// Whether samples that differ in the `pid` label alone fall together.
    #[verifier::when_used_as_spec(across_processes)]
    pub fn is_across_processes(self) -> (r: bool)
        ensures
            r == self.across_processes(),
    {
        match self {
            Policy::Min | Policy::Max | Policy::Sum | Policy::MostRecent => true,
            _ => false,
        }
    }
}

/// The policy for a metric of the type, and of the mode if it is a gauge.
pub fn policy_of(typ: &str, mode: Option<&String>) -> (policy: Policy)
    ensures
        policy == spec_policy(
            typ@,
            match mode {
                Some(m) => Some(m@),
                None => None,
            },
        ),
{
    if str_eq(typ, "gauge") {
        match mode {
            Some(m) => {
                let m = m.as_str();
                if str_eq(m, "min") || str_eq(m, "livemin") {
                    Policy::Min
                } else if str_eq(m, "max") || str_eq(m, "livemax") {
                    Policy::Max
                } else if str_eq(m, "sum") || str_eq(m, "livesum") {
                    Policy::Sum
                } else if str_eq(m, "mostrecent") || str_eq(m, "livemostrecent") {
                    Policy::MostRecent
                } else {
                    Policy::All
                }
            },
            None => Policy::All,
        }
    } else if str_eq(typ, "histogram") {
        Policy::Histogram
    } else {
        Policy::Counter
    }
}

/// A sample of a merged metric.
///
/// Its value is given by the additions that produce it: the numbers of each
/// inner list of `value` are added from left to right, and the sums of the
/// lists are added from left to right. A value that is one number of one
/// process is one list of one number.
#[derive(Debug)]
pub struct MergedSample {
    pub name: String,
    pub labels: Labels,
    /// Zero: a merged value belongs to no moment of one clock.
    pub timestamp: u64,
    pub value: Vec<Vec<u64>>,
}

/// What a merged sample holds.
pub struct MergedSampleView {
    pub name: Seq<char>,
    pub labels: Map<Seq<char>, Seq<char>>,
    pub timestamp: u64,
    pub value: Seq<Seq<u64>>,
}

/// What a list of lists of numbers holds.
pub open spec fn terms_view(value: Seq<Vec<u64>>) -> Seq<Seq<u64>> {
    value.map_values(|v: Vec<u64>| v@)
}

impl View for MergedSample {
    type V = MergedSampleView;

    open spec fn view(&self) -> MergedSampleView {
        MergedSampleView {
            name: self.name@,
            labels: self.labels@,
            timestamp: self.timestamp,
            value: terms_view(self.value@),
        }
    }
}

/// What a list of merged samples holds.
pub open spec fn merged_samples_view(samples: Seq<MergedSample>) -> Seq<MergedSampleView> {
    samples.map_values(|s: MergedSample| s@)
}

/// A metric with one sample for each of its series.
#[derive(Debug)]
pub struct MergedMetric {
    pub name: String,
    pub documentation: String,
    pub typ: String,
    pub samples: Vec<MergedSample>,
}

/// What a merged metric holds.
pub struct MergedMetricView {
    pub name: Seq<char>,
    pub documentation: Seq<char>,
    pub typ: Seq<char>,
    pub samples: Seq<MergedSampleView>,
}

impl View for MergedMetric {
    type V = MergedMetricView;

    open spec fn view(&self) -> MergedMetricView {
        MergedMetricView {
            name: self.name@,
            documentation: self.documentation@,
            typ: self.typ@,
            samples: merged_samples_view(self.samples@),
        }
    }
}

/// What a list of merged metrics holds.
pub open spec fn merged_metrics_view(metrics: Seq<MergedMetric>) -> Seq<MergedMetricView> {
    metrics.map_values(|m: MergedMetric| m@)
}

} // verus!
