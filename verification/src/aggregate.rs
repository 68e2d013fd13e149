//! The fold of the samples of one metric into its series.
//!
//! Samples fall together by their name and labels. What becomes of the values
//! that fall together depends on the policy of the metric: the least, the
//! greatest, the latest or the last of them is kept, or they are added up. A
//! histogram keeps the samples that carry a threshold, in the label `le`,
//! apart, by their other labels and by the threshold.

use crate::binary64::{is_less, less_than};
use crate::labels::Labels;
use crate::lookup::{first_place, lemma_first_place_found};
use crate::metric::{Policy, Sample, SampleView};
use crate::text::str_eq;
use vstd::prelude::*;

verus! {

/// What makes a series: the name of its samples and their labels, without the
/// labels that the policy takes away.
pub struct SeriesKey {
    pub name: Seq<char>,
    pub labels: Map<Seq<char>, Seq<char>>,
}

/// A series while samples are folded into it.
pub struct SeriesView {
    pub key: SeriesKey,
    /// The values that were kept, in the order in which they came: one value
    /// where the policy keeps one, all of them where it adds them up.
    pub terms: Seq<u64>,
    /// The timestamp of the value that was kept last.
    pub timestamp: u64,
}

/// A bucket of a histogram while samples are folded into it.
pub struct BucketView {
    /// The threshold of the bucket, as the label gives it.
    pub le: Seq<char>,
    /// The values of the bucket, in the order in which they came.
    pub terms: Seq<u64>,
}

/// The buckets of a histogram that share their labels, `le` apart.
pub struct GroupView {
    pub labels: Map<Seq<char>, Seq<char>>,
    pub buckets: Seq<BucketView>,
}

/// What has been folded of the samples of a metric.
pub struct AccumulatorView {
    pub series: Seq<SeriesView>,
    pub groups: Seq<GroupView>,
}

/// The keys of a list of series.
pub open spec fn series_keys(series: Seq<SeriesView>) -> Seq<SeriesKey> {
    series.map_values(|s: SeriesView| s.key)
}

/// The labels of a list of groups.
pub open spec fn group_labels(groups: Seq<GroupView>) -> Seq<Map<Seq<char>, Seq<char>>> {
    groups.map_values(|g: GroupView| g.labels)
}

/// The thresholds of a list of buckets.
pub open spec fn bucket_thresholds(buckets: Seq<BucketView>) -> Seq<Seq<char>> {
    buckets.map_values(|b: BucketView| b.le)
}

/// The series that a sample belongs to: under a policy that merges across
/// processes, the label `pid` does not count.
pub open spec fn series_key(policy: Policy, sample: SampleView) -> SeriesKey {
    SeriesKey {
        name: sample.name,
        labels: if policy.across_processes() {
            sample.labels.remove("pid"@)
        } else {
            sample.labels
        },
    }
}

/// The series after a further sample of it.
pub open spec fn combine(policy: Policy, current: SeriesView, sample: SampleView) -> SeriesView {
    match policy {
        Policy::Min => if less_than(sample.value, current.terms.last()) {
            SeriesView { terms: seq![sample.value], ..current }
        } else {
            current
        },
        Policy::Max => if less_than(current.terms.last(), sample.value) {
            SeriesView { terms: seq![sample.value], ..current }
        } else {
            current
        },
        Policy::MostRecent => if less_than(current.timestamp, sample.timestamp) {
            SeriesView { terms: seq![sample.value], timestamp: sample.timestamp, ..current }
        } else {
            current
        },
        Policy::All => SeriesView { terms: seq![sample.value], ..current },
        Policy::Sum | Policy::Histogram | Policy::Counter => SeriesView {
            terms: current.terms.push(sample.value),
            ..current
        },
    }
}

/// The series after a sample: its own series takes it in, or is made for it
/// behind the others.
pub open spec fn absorb_series(series: Seq<SeriesView>, policy: Policy, sample: SampleView) -> Seq<
    SeriesView,
> {
    let key = series_key(policy, sample);
    match first_place(series_keys(series), key) {
        Some(i) => series.update(i, combine(policy, series[i], sample)),
        None => series.push(
            SeriesView { key, terms: seq![sample.value], timestamp: sample.timestamp },
        ),
    }
}

/// The buckets after a value for the threshold: its own bucket takes it in, or
/// is made for it behind the others.
pub open spec fn absorb_value(buckets: Seq<BucketView>, le: Seq<char>, value: u64) -> Seq<
    BucketView,
> {
    match first_place(bucket_thresholds(buckets), le) {
        Some(j) => buckets.update(
            j,
            BucketView { terms: buckets[j].terms.push(value), ..buckets[j] },
        ),
        None => buckets.push(BucketView { le, terms: seq![value] }),
    }
}

/// The groups after a sample that carries the label `le`.
pub open spec fn absorb_bucket(groups: Seq<GroupView>, sample: SampleView) -> Seq<GroupView> {
    let le = sample.labels["le"@];
    let labels = sample.labels.remove("le"@);
    match first_place(group_labels(groups), labels) {
        Some(i) => groups.update(
            i,
            GroupView { buckets: absorb_value(groups[i].buckets, le, sample.value), ..groups[i] },
        ),
        None => groups.push(
            GroupView { labels, buckets: seq![BucketView { le, terms: seq![sample.value] }] },
        ),
    }
}

/// What has been folded after a further sample.
pub open spec fn absorb(acc: AccumulatorView, policy: Policy, sample: SampleView) -> AccumulatorView {
    if policy is Histogram && sample.labels.contains_key("le"@) {
        AccumulatorView { groups: absorb_bucket(acc.groups, sample), ..acc }
    } else {
        AccumulatorView { series: absorb_series(acc.series, policy, sample), ..acc }
    }
}

/// What the samples fold to, taken in their order.
pub open spec fn accumulate(policy: Policy, samples: Seq<SampleView>) -> AccumulatorView
    decreases samples.len(),
{
    if samples.len() == 0 {
        AccumulatorView { series: Seq::empty(), groups: Seq::empty() }
    } else {
        absorb(accumulate(policy, samples.drop_last()), policy, samples.last())
    }
}

/// A series while samples are folded into it.
#[derive(Debug)]
pub struct Series {
    pub name: String,
    pub labels: Labels,
    pub terms: Vec<u64>,
    pub timestamp: u64,
}

impl View for Series {
    type V = SeriesView;

    open spec fn view(&self) -> SeriesView {
        SeriesView {
            key: SeriesKey { name: self.name@, labels: self.labels@ },
            terms: self.terms@,
            timestamp: self.timestamp,
        }
    }
}

/// A bucket of a histogram while samples are folded into it.
#[derive(Debug)]
pub struct Bucket {
    pub le: String,
    pub terms: Vec<u64>,
}

impl View for Bucket {
    type V = BucketView;

    open spec fn view(&self) -> BucketView {
        BucketView { le: self.le@, terms: self.terms@ }
    }
}

/// The buckets of a histogram that share their labels, `le` apart.
#[derive(Debug)]
pub struct Group {
    pub labels: Labels,
    pub buckets: Vec<Bucket>,
}

impl View for Group {
    type V = GroupView;

    open spec fn view(&self) -> GroupView {
        GroupView { labels: self.labels@, buckets: bucket_views(self.buckets@) }
    }
}

/// What a list of series holds.
pub open spec fn series_views(series: Seq<Series>) -> Seq<SeriesView> {
    series.map_values(|s: Series| s@)
}

/// What a list of buckets holds.
pub open spec fn bucket_views(buckets: Seq<Bucket>) -> Seq<BucketView> {
    buckets.map_values(|b: Bucket| b@)
}

/// What a list of groups holds.
pub open spec fn group_views(groups: Seq<Group>) -> Seq<GroupView> {
    groups.map_values(|g: Group| g@)
}

/// Each series has kept a value.
spec fn all_hold_terms(series: Seq<SeriesView>) -> bool {
    forall|i: int| 0 <= i < series.len() ==> (#[trigger] series[i]).terms.len() > 0
}

/// The place of the series with the name and the labels.
fn find_series(series: &Vec<Series>, name: &str, labels: &Labels) -> (r: Option<usize>)
    ensures
        match r {
            Some(i) => first_place(
                series_keys(series_views(series@)),
                SeriesKey { name: name@, labels: labels@ },
            ) == Some(i as int) && i < series.len(),
            None => first_place(
                series_keys(series_views(series@)),
                SeriesKey { name: name@, labels: labels@ },
            ) is None,
        },
{
    let ghost keys = series_keys(series_views(series@));
    let ghost key = SeriesKey { name: name@, labels: labels@ };
    let mut i: usize = 0;
    while i < series.len()
        invariant
            i <= series.len(),
            keys == series_keys(series_views(series@)),
            key == (SeriesKey { name: name@, labels: labels@ }),
            forall|j: int| 0 <= j < i ==> keys[j] != key,
        decreases series.len() - i,
    {
        assert(keys[i as int] == series@[i as int]@.key);
        if str_eq(series[i].name.as_str(), name) && series[i].labels.same(labels) {
            proof {
                lemma_first_place_found(keys, key, i as int);
            }
            return Some(i);
        }
        i += 1;
    }
    None
}

/// Folds a sample into its series.
fn absorb_into_series(series: &mut Vec<Series>, policy: Policy, sample: &Sample)
    requires
        all_hold_terms(series_views(old(series)@)),
    ensures
        series_views(final(series)@) == absorb_series(series_views(old(series)@), policy, sample@),
        all_hold_terms(series_views(final(series)@)),
{
    let ghost before = series_views(series@);
    let mut labels = sample.labels.clone();
    if policy.is_across_processes() {
        labels.remove("pid");
    }
    assert(labels@ == series_key(policy, sample@).labels);
    match find_series(series, sample.name.as_str(), &labels) {
        Some(i) => {
            assert(before[i as int] == series@[i as int]@);
            assert(before[i as int].terms.len() > 0);
            match policy {
                Policy::Min => {
                    let last: usize = series[i].terms.len() - 1;
                    if is_less(sample.value, series[i].terms[last]) {
                        let mut terms: Vec<u64> = Vec::new();
                        terms.push(sample.value);
                        series[i].terms = terms;
                    }
                },
                Policy::Max => {
                    let last: usize = series[i].terms.len() - 1;
                    if is_less(series[i].terms[last], sample.value) {
                        let mut terms: Vec<u64> = Vec::new();
                        terms.push(sample.value);
                        series[i].terms = terms;
                    }
                },
                Policy::MostRecent => {
                    if is_less(series[i].timestamp, sample.timestamp) {
                        let mut terms: Vec<u64> = Vec::new();
                        terms.push(sample.value);
                        series[i].terms = terms;
                        series[i].timestamp = sample.timestamp;
                    }
                },
                Policy::All => {
                    let mut terms: Vec<u64> = Vec::new();
                    terms.push(sample.value);
                    series[i].terms = terms;
                },
                Policy::Sum | Policy::Histogram | Policy::Counter => {
                    series[i].terms.push(sample.value);
                },
            }
            proof {
                let after = series_views(series@);
                let expected = before.update(i as int, combine(policy, before[i as int], sample@));
                assert(after[i as int] == series@[i as int]@);
                assert(after[i as int].terms =~= expected[i as int].terms);
                assert forall|j: int| 0 <= j < after.len() implies after[j] == expected[j] by {
                    if j != i {
                        assert(series@[j] == old(series)@[j]);
                    }
                }
                assert(after =~= expected);
            }
        },
        None => {
            let mut terms: Vec<u64> = Vec::new();
            terms.push(sample.value);
            series.push(
                Series {
                    name: sample.name.clone(),
                    labels,
                    terms,
                    timestamp: sample.timestamp,
                },
            );
            proof {
                let after = series_views(series@);
                let added = SeriesView {
                    key: series_key(policy, sample@),
                    terms: seq![sample.value],
                    timestamp: sample.timestamp,
                };
                assert(after[before.len() as int].terms =~= added.terms);
                assert(after =~= before.push(added));
            }
        },
    }
}

/// The place of the group with the labels.
fn find_group(groups: &Vec<Group>, labels: &Labels) -> (r: Option<usize>)
    ensures
        match r {
            Some(i) => first_place(group_labels(group_views(groups@)), labels@) == Some(i as int)
                && i < groups.len(),
            None => first_place(group_labels(group_views(groups@)), labels@) is None,
        },
{
    let ghost keys = group_labels(group_views(groups@));
    let mut i: usize = 0;
    while i < groups.len()
        invariant
            i <= groups.len(),
            keys == group_labels(group_views(groups@)),
            forall|j: int| 0 <= j < i ==> keys[j] != labels@,
        decreases groups.len() - i,
    {
        assert(keys[i as int] == groups@[i as int]@.labels);
        if groups[i].labels.same(labels) {
            proof {
                lemma_first_place_found(keys, labels@, i as int);
            }
            return Some(i);
        }
        i += 1;
    }
    None
}

/// The place of the bucket with the threshold.
fn find_bucket(buckets: &Vec<Bucket>, le: &str) -> (r: Option<usize>)
    ensures
        match r {
            Some(j) => first_place(bucket_thresholds(bucket_views(buckets@)), le@) == Some(
                j as int,
            ) && j < buckets.len(),
            None => first_place(bucket_thresholds(bucket_views(buckets@)), le@) is None,
        },
{
    let ghost keys = bucket_thresholds(bucket_views(buckets@));
    let mut j: usize = 0;
    while j < buckets.len()
        invariant
            j <= buckets.len(),
            keys == bucket_thresholds(bucket_views(buckets@)),
            forall|k: int| 0 <= k < j ==> keys[k] != le@,
        decreases buckets.len() - j,
    {
        assert(keys[j as int] == buckets@[j as int]@.le);
        if str_eq(buckets[j].le.as_str(), le) {
            proof {
                lemma_first_place_found(keys, le@, j as int);
            }
            return Some(j);
        }
        j += 1;
    }
    None
}

/// Folds a value into the bucket of its threshold.
fn absorb_into_buckets(buckets: &mut Vec<Bucket>, le: &String, value: u64)
    ensures
        bucket_views(final(buckets)@) == absorb_value(bucket_views(old(buckets)@), le@, value),
{
    let ghost before = bucket_views(buckets@);
    match find_bucket(buckets, le.as_str()) {
        Some(j) => {
            assert(before[j as int] == buckets@[j as int]@);
            buckets[j].terms.push(value);
            proof {
                let after = bucket_views(buckets@);
                let expected = before.update(
                    j as int,
                    BucketView { terms: before[j as int].terms.push(value), ..before[j as int] },
                );
                assert(after[j as int] == buckets@[j as int]@);
                assert forall|k: int| 0 <= k < after.len() implies after[k] == expected[k] by {
                    if k != j {
                        assert(buckets@[k] == old(buckets)@[k]);
                    }
                }
                assert(after =~= expected);
            }
        },
        None => {
            let mut terms: Vec<u64> = Vec::new();
            terms.push(value);
            buckets.push(Bucket { le: le.clone(), terms });
            proof {
                let after = bucket_views(buckets@);
                let added = BucketView { le: le@, terms: seq![value] };
                assert(after[before.len() as int].terms =~= added.terms);
                assert(after =~= before.push(added));
            }
        },
    }
}

/// Folds a sample of a bucket into the group of its labels.
fn absorb_into_groups(groups: &mut Vec<Group>, sample: &Sample, le: &String)
    requires
        sample@.labels.contains_key("le"@),
        le@ == sample@.labels["le"@],
    ensures
        group_views(final(groups)@) == absorb_bucket(group_views(old(groups)@), sample@),
{
    let ghost before = group_views(groups@);
    let mut labels = sample.labels.clone();
    labels.remove("le");
    match find_group(groups, &labels) {
        Some(i) => {
            assert(before[i as int] == groups@[i as int]@);
            absorb_into_buckets(&mut groups[i].buckets, le, sample.value);
            proof {
                let after = group_views(groups@);
                let expected = before.update(
                    i as int,
                    GroupView {
                        buckets: absorb_value(before[i as int].buckets, le@, sample.value),
                        ..before[i as int]
                    },
                );
                assert(after[i as int] == groups@[i as int]@);
                assert forall|k: int| 0 <= k < after.len() implies after[k] == expected[k] by {
                    if k != i {
                        assert(groups@[k] == old(groups)@[k]);
                    }
                }
                assert(after =~= expected);
            }
        },
        None => {
            let mut terms: Vec<u64> = Vec::new();
            terms.push(sample.value);
            let mut buckets: Vec<Bucket> = Vec::new();
            buckets.push(Bucket { le: le.clone(), terms });
            groups.push(Group { labels, buckets });
            proof {
                let after = group_views(groups@);
                let added = GroupView {
                    labels: sample@.labels.remove("le"@),
                    buckets: seq![BucketView { le: le@, terms: seq![sample.value] }],
                };
                assert(after[before.len() as int].buckets[0].terms =~= seq![sample.value]);
                assert(after[before.len() as int].buckets =~= added.buckets);
                assert(after =~= before.push(added));
            }
        },
    }
}

/// The series and buckets of one metric, to which samples are added one by
/// one.
pub struct Accumulator {
    policy: Policy,
    series: Vec<Series>,
    groups: Vec<Group>,
}

impl Accumulator {
    /// The policy by which samples are folded.
    pub closed spec fn policy(self) -> Policy {
        self.policy
    }

    /// What has been folded so far.
    pub closed spec fn state(self) -> AccumulatorView {
        AccumulatorView { series: series_views(self.series@), groups: group_views(self.groups@) }
    }

    #[verifier::type_invariant]
    spec fn wf(self) -> bool {
        all_hold_terms(series_views(self.series@))
    }

    /// An accumulator that has seen no sample.
    pub fn new(policy: Policy) -> (acc: Accumulator)
        ensures
            acc.policy() == policy,
            acc.state() == accumulate(policy, Seq::empty()),
    {
        let acc = Accumulator { policy, series: Vec::new(), groups: Vec::new() };
        assert(acc.state().series =~= Seq::empty());
        assert(acc.state().groups =~= Seq::empty());
        acc
    }

    /// Hands out the series and the groups of buckets.
    pub fn into_parts(self) -> (parts: (Vec<Series>, Vec<Group>))
        ensures
            series_views(parts.0@) == self.state().series,
            group_views(parts.1@) == self.state().groups,
    {
        let Accumulator { policy: _, series, groups } = self;
        (series, groups)
    }

    /// Folds one more sample, by the policy.
    pub fn accumulate(&mut self, sample: &Sample)
        ensures
            final(self).policy() == old(self).policy(),
            final(self).state() == absorb(old(self).state(), old(self).policy(), sample@),
    {
        proof {
            use_type_invariant(&*self);
        }
        let mut taken = Accumulator { policy: self.policy, series: Vec::new(), groups: Vec::new() };
        core::mem::swap(self, &mut taken);
        let Accumulator { policy, mut series, mut groups } = taken;
        let mut folded = false;
        if policy == Policy::Histogram {
            match sample.labels.get("le") {
                Some(le) => {
                    absorb_into_groups(&mut groups, sample, le);
                    folded = true;
                },
                None => {},
            }
        }
        if !folded {
            absorb_into_series(&mut series, policy, sample);
        }
        *self = Accumulator { policy, series, groups };
    }
}

/// Folds the samples in their order.
pub fn accumulate_samples(policy: Policy, samples: &Vec<Sample>) -> (acc: Accumulator)
    ensures
        acc.policy() == policy,
        acc.state() == accumulate(policy, crate::metric::samples_view(samples@)),
{
    let ghost views = crate::metric::samples_view(samples@);
    let mut acc = Accumulator::new(policy);
    let mut i: usize = 0;
    while i < samples.len()
        invariant
            i <= samples.len(),
            views == crate::metric::samples_view(samples@),
            acc.policy() == policy,
            acc.state() == accumulate(policy, views.take(i as int)),
        decreases samples.len() - i,
    {
        assert(views.take(i + 1).drop_last() =~= views.take(i as int));
        assert(views.take(i + 1).last() == samples@[i as int]@);
        acc.accumulate(&samples[i]);
        i += 1;
    }
    assert(views.take(i as int) =~= views);
    acc
}

} // verus!
