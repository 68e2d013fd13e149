//! The merge of the metrics that were read: one sample for each series.

use crate::aggregate::{
    absorb_bucket, absorb_value, accumulate, accumulate_samples, bucket_thresholds, group_labels,
    series_views, BucketView, GroupView, Series, SeriesView,
};
use crate::histogram::{finish_group, rank_buckets, threshold_of};
use crate::lookup::{first_place, lemma_first_place};
use crate::binary64::ZERO;
use crate::error::{fails_with, Corruption, MergeError};
use crate::histogram::{finish_groups, finish_histogram, thresholds_view, Threshold, ThresholdView};
use crate::labels::Labels;
use crate::metric::{
    merged_metrics_view, merged_samples_view, metrics_view, policy_of, spec_policy, terms_view,
    MergedMetric, MergedMetricView, MergedSample, MergedSampleView, Metric, MetricView, Policy,
    SampleView,
};
use crate::collect::{collected, files_view, read_multiprocess_files, SourceFile, SourceFileView};
use crate::error::ErrorView;
use crate::key::texts;
use crate::layout::ByteOrder;
use vstd::prelude::*;

verus! {

/// The sample of a series that is no bucket: the value is the sum of what the
/// series has kept.
pub open spec fn plain_sample(series: SeriesView) -> MergedSampleView {
    MergedSampleView {
        name: series.key.name,
        labels: series.key.labels,
        timestamp: ZERO,
        value: seq![series.terms],
    }
}

/// The samples of the series that are no buckets, in the order of the series.
pub open spec fn plain_samples(series: Seq<SeriesView>) -> Seq<MergedSampleView> {
    series.map_values(|s: SeriesView| plain_sample(s))
}

/// The merged samples of a metric: its samples are folded by its policy, each
/// series gives a sample, and the buckets of a histogram give theirs. None
/// where the table lacks the threshold of a bucket.
#[verifier::opaque]
pub open spec fn merged_samples(metric: MetricView, table: Seq<ThresholdView>) -> Option<
    Seq<MergedSampleView>,
> {
    let acc = accumulate(spec_policy(metric.typ, metric.mode), metric.samples);
    finish_groups(
        plain_samples(acc.series),
        metric.name,
        acc.groups,
        table,
        acc.groups.len() as int,
    )
}

/// The merged metric: the name, the documentation and the type stay.
pub open spec fn merged_metric(metric: MetricView, table: Seq<ThresholdView>) -> Option<
    MergedMetricView,
> {
    match merged_samples(metric, table) {
        Some(samples) => Some(
            MergedMetricView {
                name: metric.name,
                documentation: metric.documentation,
                typ: metric.typ,
                samples,
            },
        ),
        None => None,
    }
}

/// The merged metrics, in the order of the metrics. None where one of them
/// cannot be merged.
pub open spec fn merged_metrics(metrics: Seq<MetricView>, table: Seq<ThresholdView>) -> Option<
    Seq<MergedMetricView>,
>
    decreases metrics.len(),
{
    if metrics.len() == 0 {
        Some(Seq::empty())
    } else {
        match (merged_metrics(metrics.drop_last(), table), merged_metric(metrics.last(), table)) {
            (Some(merged), Some(last)) => Some(merged.push(last)),
            _ => None,
        }
    }
}

/// Once a metric cannot be merged, no longer run of metrics can.
pub proof fn lemma_merged_metrics_fails_on(
    metrics: Seq<MetricView>,
    table: Seq<ThresholdView>,
    failed: int,
)
    requires
        0 <= failed <= metrics.len(),
        merged_metrics(metrics.take(failed), table) is None,
    ensures
        merged_metrics(metrics, table) is None,
    decreases metrics.len(),
{
    if failed < metrics.len() {
        assert(metrics.drop_last().take(failed) =~= metrics.take(failed));
        lemma_merged_metrics_fails_on(metrics.drop_last(), table, failed);
    } else {
        assert(metrics.take(failed) =~= metrics);
    }
}

/// The samples of the series, which are used up.
fn into_plain_samples(series: Vec<Series>) -> (samples: Vec<MergedSample>)
    ensures
        merged_samples_view(samples@) == plain_samples(series_views(series@)),
{
    let ghost views = series_views(series@);
    let mut series = series;
    let mut samples: Vec<MergedSample> = Vec::new();
    let mut i: usize = 0;
    while i < series.len()
        invariant
            i <= series.len(),
            series.len() == views.len(),
            forall|k: int| i <= k < series.len() ==> (#[trigger] series@[k])@ == views[k],
            merged_samples_view(samples@) == plain_samples(views.take(i as int)),
        decreases series.len() - i,
    {
        let ghost before = merged_samples_view(samples@);
        assert(series@[i as int]@ == views[i as int]);
        let mut name = String::new();
        let mut labels = Labels::new();
        let mut terms: Vec<u64> = Vec::new();
        core::mem::swap(&mut series[i].name, &mut name);
        core::mem::swap(&mut series[i].labels, &mut labels);
        core::mem::swap(&mut series[i].terms, &mut terms);
        let mut value: Vec<Vec<u64>> = Vec::new();
        value.push(terms);
        assert(terms_view(value@) =~= seq![views[i as int].terms]);
        samples.push(MergedSample { name, labels, timestamp: ZERO, value });
        proof {
            assert(merged_samples_view(samples@) =~= before.push(plain_sample(views[i as int])));
            assert(plain_samples(views.take(i + 1)) =~= plain_samples(views.take(i as int)).push(
                plain_sample(views[i as int]),
            ));
        }
        i += 1;
    }
    assert(views.take(i as int) =~= views);
    samples
}

/// Merges the samples of one metric.
///
/// Fails where the table lacks the threshold of a bucket of a histogram.
pub fn merge_metric(metric: &Metric, table: &Vec<Threshold>) -> (r: Result<
    MergedMetric,
    MergeError,
>)
    ensures
        match merged_metric(metric@, thresholds_view(table@)) {
            Some(merged) => r is Ok && r->Ok_0@ == merged,
            None => fails_with(r, Corruption::InvalidThreshold),
        },
{
    let mode = match &metric.multiprocess_mode {
        Some(m) => Some(m),
        None => None,
    };
    let policy = policy_of(metric.typ.as_str(), mode);
    proof {
        reveal(merged_samples);
    }
    let acc = accumulate_samples(policy, &metric.samples);
    let (series, groups) = acc.into_parts();
    let plain = into_plain_samples(series);
    match finish_histogram(plain, metric.name.as_str(), &groups, table) {
        Ok(samples) => Ok(
            MergedMetric {
                name: metric.name.clone(),
                documentation: metric.documentation.clone(),
                typ: metric.typ.clone(),
                samples,
            },
        ),
        Err(e) => Err(e),
    }
}

/// Merges the samples of each metric into one sample for each series, with
/// the timestamp zero.
///
/// The table gives the numbers of the thresholds of the buckets of
/// histograms. The merge fails, on corruption of the kind
/// [`Corruption::InvalidThreshold`], where the table lacks the threshold of a
/// bucket, and only there.
pub fn accumulate_metrics(metrics: Vec<Metric>, table: &Vec<Threshold>) -> (r: Result<
    Vec<MergedMetric>,
    MergeError,
>)
    ensures
        match merged_metrics(metrics_view(metrics@), thresholds_view(table@)) {
            Some(merged) => r is Ok && merged_metrics_view(r->Ok_0@) == merged,
            None => fails_with(r, Corruption::InvalidThreshold),
        },
{
    let ghost views = metrics_view(metrics@);
    let ghost tv = thresholds_view(table@);
    let mut merged: Vec<MergedMetric> = Vec::new();
    let mut i: usize = 0;
    while i < metrics.len()
        invariant
            i <= metrics.len(),
            views == metrics_view(metrics@),
            tv == thresholds_view(table@),
            merged_metrics(views.take(i as int), tv) == Some(merged_metrics_view(merged@)),
        decreases metrics.len() - i,
    {
        proof {
            assert(views.take(i + 1).drop_last() =~= views.take(i as int));
            assert(views.take(i + 1).last() == metrics@[i as int]@);
        }
        let ghost before = merged_metrics_view(merged@);
        match merge_metric(&metrics[i], table) {
            Ok(metric) => {
                merged.push(metric);
                assert(merged_metrics_view(merged@) =~= before.push(metric@));
            },
            Err(e) => {
                proof {
                    assert(merged_metrics(views.take(i + 1), tv) is None);
                    lemma_merged_metrics_fails_on(views, tv, i + 1);
                }
                return Err(e);
            },
        }
        i += 1;
    }
    assert(views.take(i as int) =~= views);
    Ok(merged)
}

/// The thresholds of the samples that carry the label `le`, in the order of
/// the samples.
pub open spec fn sample_thresholds(samples: Seq<SampleView>) -> Seq<Seq<char>>
    decreases samples.len(),
{
    if samples.len() == 0 {
        Seq::empty()
    } else if samples.last().labels.contains_key("le"@) {
        sample_thresholds(samples.drop_last()).push(samples.last().labels["le"@])
    } else {
        sample_thresholds(samples.drop_last())
    }
}

/// The thresholds of the buckets of the histograms among the metrics, in the
/// order of the metrics and of their samples.
pub open spec fn spec_histogram_thresholds(metrics: Seq<MetricView>) -> Seq<Seq<char>>
    decreases metrics.len(),
{
    if metrics.len() == 0 {
        Seq::empty()
    } else if spec_policy(metrics.last().typ, metrics.last().mode) is Histogram {
        spec_histogram_thresholds(metrics.drop_last()) + sample_thresholds(metrics.last().samples)
    } else {
        spec_histogram_thresholds(metrics.drop_last())
    }
}

/// Lists the thresholds of the buckets of the histograms among the metrics:
/// the texts for which [`accumulate_metrics`] asks the table of thresholds.
pub fn histogram_thresholds(metrics: &Vec<Metric>) -> (r: Vec<String>)
    ensures
        texts(r@) == spec_histogram_thresholds(metrics_view(metrics@)),
{
    let ghost views = metrics_view(metrics@);
    let mut r: Vec<String> = Vec::new();
    let mut i: usize = 0;
    while i < metrics.len()
        invariant
            i <= metrics.len(),
            views == metrics_view(metrics@),
            texts(r@) == spec_histogram_thresholds(views.take(i as int)),
        decreases metrics.len() - i,
    {
        let metric = &metrics[i];
        proof {
            assert(views.take(i + 1).drop_last() =~= views.take(i as int));
            assert(views.take(i + 1).last() == metric@);
        }
        let mode = match &metric.multiprocess_mode {
            Some(m) => Some(m),
            None => None,
        };
        if policy_of(metric.typ.as_str(), mode) == Policy::Histogram {
            let ghost start = texts(r@);
            let ghost samples = metric@.samples;
            let mut j: usize = 0;
            while j < metric.samples.len()
                invariant
                    j <= metric.samples.len(),
                    samples == crate::metric::samples_view(metric.samples@),
                    texts(r@) == start + sample_thresholds(samples.take(j as int)),
                decreases metric.samples.len() - j,
            {
                proof {
                    assert(samples.take(j + 1).drop_last() =~= samples.take(j as int));
                    assert(samples.take(j + 1).last() == metric.samples@[j as int]@);
                }
                let ghost before = texts(r@);
                match metric.samples[j].labels.get("le") {
                    Some(le) => {
                        r.push(le.clone());
                        assert(texts(r@) =~= before.push(le@));
                        assert(texts(r@) =~= start + sample_thresholds(samples.take(j + 1)));
                    },
                    None => {},
                }
                j += 1;
            }
            assert(samples.take(j as int) =~= samples);
        } else {
            assert(texts(r@) =~= texts(r@) + Seq::<Seq<char>>::empty());
        }
        i += 1;
    }
    assert(views.take(i as int) =~= views);
    r
}

/// The merged metrics of the files: their samples are gathered by metric,
/// and the samples of each metric are merged.
#[verifier::opaque]
pub open spec fn merged(files: Seq<SourceFileView>, table: Seq<ThresholdView>, order: ByteOrder) -> Result<
    Seq<MergedMetricView>,
    ErrorView,
> {
    match collected(files, order) {
        Ok(metrics) => match merged_metrics(metrics, table) {
            Some(merged) => Ok(merged),
            None => Err(ErrorView::DataCorruption(Corruption::InvalidThreshold)),
        },
        Err(e) => Err(e),
    }
}

/// Whether `r` is the outcome `expected`.
pub open spec fn merged_as(
    r: Result<Vec<MergedMetric>, MergeError>,
    expected: Result<Seq<MergedMetricView>, ErrorView>,
) -> bool {
    match (r, expected) {
        (Ok(metrics), Ok(views)) => merged_metrics_view(metrics@) == views,
        (Err(e), Err(v)) => e@ == v,
        _ => false,
    }
}

/// Merges the files, whose numbers lie in the given byte order.
///
/// The outcome is the merged metrics, or the failure of the first file that
/// fails, or, where the files can be read and the table lacks the threshold of
/// a bucket, corruption of the kind [`Corruption::InvalidThreshold`].
pub fn merge_files(files: &Vec<SourceFile>, table: &Vec<Threshold>, order: ByteOrder) -> (r: Result<
    Vec<MergedMetric>,
    MergeError,
>)
    ensures
        merged_as(r, merged(files_view(files@), thresholds_view(table@), order)),
{
    proof {
        reveal(merged);
    }
    let metrics = match read_multiprocess_files(files, order) {
        Ok(metrics) => metrics,
        Err(e) => {
            return Err(e);
        },
    };
    accumulate_metrics(metrics, table)
}

/// Merges the files of the processes of this machine.
///
/// The numbers of the files lie in the byte order of the machine, so the
/// outcome is that of [`merge_files`] for one of the two orders.
pub fn merge_internal(files: &Vec<SourceFile>, table: &Vec<Threshold>) -> (r: Result<
    Vec<MergedMetric>,
    MergeError,
>)
    ensures
        merged_as(r, merged(files_view(files@), thresholds_view(table@), ByteOrder::Little))
            || merged_as(r, merged(files_view(files@), thresholds_view(table@), ByteOrder::Big)),
{
    merge_files(files, table, ByteOrder::native())
}

/// Whether one of the buckets has the threshold.
pub open spec fn holds_threshold(buckets: Seq<BucketView>, le: Seq<char>) -> bool {
    exists|j: int| 0 <= j < buckets.len() && (#[trigger] buckets[j]).le == le
}

/// Whether one of the buckets of the groups has the threshold.
pub open spec fn has_threshold(groups: Seq<GroupView>, le: Seq<char>) -> bool {
    exists|i: int| 0 <= i < groups.len() && holds_threshold((#[trigger] groups[i]).buckets, le)
}

/// Whether the table gives a number for each of the texts.
pub open spec fn knows_all(table: Seq<ThresholdView>, texts: Seq<Seq<char>>) -> bool {
    forall|k: int| 0 <= k < texts.len() ==> threshold_of(table, #[trigger] texts[k]) is Some
}

/// A value gives its threshold a bucket, and no other threshold.
proof fn lemma_thresholds_after_value(
    buckets: Seq<BucketView>,
    own: Seq<char>,
    value: u64,
    le: Seq<char>,
)
    ensures
        holds_threshold(absorb_value(buckets, own, value), le) <==> (le == own || holds_threshold(
            buckets,
            le,
        )),
{
    let after = absorb_value(buckets, own, value);
    let keys = bucket_thresholds(buckets);
    lemma_first_place(keys, own);
    match first_place(keys, own) {
        Some(i) => {
            assert(keys[i] == buckets[i].le);
            if holds_threshold(after, le) {
                let j = choose|j: int| 0 <= j < after.len() && (#[trigger] after[j]).le == le;
                assert(buckets[j].le == le);
            }
            if holds_threshold(buckets, le) {
                let j = choose|j: int| 0 <= j < buckets.len() && (#[trigger] buckets[j]).le == le;
                assert(after[j].le == le);
            }
            if le == own {
                assert(after[i].le == le);
            }
        },
        None => {
            if holds_threshold(after, le) {
                let j = choose|j: int| 0 <= j < after.len() && (#[trigger] after[j]).le == le;
                if j < buckets.len() {
                    assert(buckets[j].le == le);
                }
            }
            if holds_threshold(buckets, le) {
                let j = choose|j: int| 0 <= j < buckets.len() && (#[trigger] buckets[j]).le == le;
                assert(after[j].le == le);
            }
            if le == own {
                assert(after[buckets.len() as int].le == le);
            }
        },
    }
}

/// A sample of a bucket gives its threshold a bucket, and no other
/// threshold.
proof fn lemma_thresholds_after_sample(groups: Seq<GroupView>, sample: SampleView, le: Seq<char>)
    ensures
        has_threshold(absorb_bucket(groups, sample), le) <==> (le == sample.labels["le"@]
            || has_threshold(groups, le)),
{
    let own = sample.labels["le"@];
    let labels = sample.labels.remove("le"@);
    let after = absorb_bucket(groups, sample);
    let keys = group_labels(groups);
    lemma_first_place(keys, labels);
    match first_place(keys, labels) {
        Some(i) => {
            lemma_thresholds_after_value(groups[i].buckets, own, sample.value, le);
            assert(after[i].buckets == absorb_value(groups[i].buckets, own, sample.value));
            if has_threshold(after, le) {
                let g = choose|g: int|
                    0 <= g < after.len() && holds_threshold((#[trigger] after[g]).buckets, le);
                if g != i {
                    assert(groups[g] == after[g]);
                }
            }
            if has_threshold(groups, le) {
                let g = choose|g: int|
                    0 <= g < groups.len() && holds_threshold((#[trigger] groups[g]).buckets, le);
                if g != i {
                    assert(groups[g] == after[g]);
                } else {
                    assert(holds_threshold(after[i].buckets, le));
                }
            }
            if le == own {
                assert(holds_threshold(after[i].buckets, le));
            }
        },
        None => {
            let last = groups.len() as int;
            if has_threshold(after, le) {
                let g = choose|g: int|
                    0 <= g < after.len() && holds_threshold((#[trigger] after[g]).buckets, le);
                if g < last {
                    assert(groups[g] == after[g]);
                } else {
                    let j = choose|j: int|
                        0 <= j < after[g].buckets.len() && (#[trigger] after[g].buckets[j]).le == le;
                    assert(le == own);
                }
            }
            if has_threshold(groups, le) {
                let g = choose|g: int|
                    0 <= g < groups.len() && holds_threshold((#[trigger] groups[g]).buckets, le);
                assert(groups[g] == after[g]);
            }
            if le == own {
                assert(after[last].buckets[0].le == le);
                assert(holds_threshold(after[last].buckets, le));
            }
        },
    }
}

/// The thresholds of the buckets of a histogram are those of its samples; a
/// metric of another policy has no buckets.
pub proof fn lemma_buckets_are_of_samples(policy: Policy, samples: Seq<SampleView>, le: Seq<char>)
    ensures
        has_threshold(accumulate(policy, samples).groups, le) <==> (policy is Histogram
            && sample_thresholds(samples).contains(le)),
    decreases samples.len(),
{
    if samples.len() > 0 {
        let front = samples.drop_last();
        let last = samples.last();
        lemma_buckets_are_of_samples(policy, front, le);
        let found = sample_thresholds(front);
        if last.labels.contains_key("le"@) {
            let own = last.labels["le"@];
            assert(found.push(own).contains(le) <==> (le == own || found.contains(le))) by {
                if found.contains(le) {
                    let k = choose|k: int| 0 <= k < found.len() && found[k] == le;
                    assert(found.push(own)[k] == le);
                }
                if le == own {
                    assert(found.push(own)[found.len() as int] == le);
                }
            }
            if policy is Histogram {
                lemma_thresholds_after_sample(accumulate(policy, front).groups, last, le);
            }
        }
    }
}

/// The buckets can be ranked where, and only where, the table gives a number
/// for the threshold of each.
pub proof fn lemma_rank_buckets_needs(buckets: Seq<BucketView>, table: Seq<ThresholdView>)
    ensures
        rank_buckets(buckets, table) is Some <==> forall|j: int|
            0 <= j < buckets.len() ==> threshold_of(table, (#[trigger] buckets[j]).le) is Some,
    decreases buckets.len(),
{
    if buckets.len() > 0 {
        let front = buckets.drop_last();
        lemma_rank_buckets_needs(front, table);
        if rank_buckets(buckets, table) is Some {
            assert forall|j: int| 0 <= j < buckets.len() implies threshold_of(
                table,
                (#[trigger] buckets[j]).le,
            ) is Some by {
                if j < front.len() {
                    assert(front[j] == buckets[j]);
                }
            }
        } else {
            if rank_buckets(front, table) is None {
                let j = choose|j: int|
                    0 <= j < front.len() && !(threshold_of(table, (#[trigger] front[j]).le) is Some);
                assert(front[j] == buckets[j]);
            } else {
                assert(buckets[buckets.len() - 1] == buckets.last());
            }
        }
    }
}

/// The groups can be finished where, and only where, the table gives a
/// number for the threshold of each of their buckets.
pub proof fn lemma_finish_groups_needs(
    samples: Seq<MergedSampleView>,
    name: Seq<char>,
    groups: Seq<GroupView>,
    table: Seq<ThresholdView>,
    count: int,
)
    requires
        0 <= count <= groups.len(),
    ensures
        finish_groups(samples, name, groups, table, count) is Some <==> forall|i: int|
            0 <= i < count ==> rank_buckets((#[trigger] groups[i]).buckets, table) is Some,
    decreases count,
{
    if count > 0 {
        lemma_finish_groups_needs(samples, name, groups, table, count - 1);
        let before = finish_groups(samples, name, groups, table, count - 1);
        let ranked = rank_buckets(groups[count - 1].buckets, table);
        assert(finish_groups(samples, name, groups, table, count) is Some <==> (before is Some
            && ranked is Some)) by {
            if before is Some {
                assert(finish_group(before->Some_0, name, groups[count - 1], table) is Some
                    <==> ranked is Some) by {
                    reveal(finish_group);
                }
            }
        }
        if before is Some && ranked is Some {
            assert forall|i: int| 0 <= i < count implies rank_buckets(
                (#[trigger] groups[i]).buckets,
                table,
            ) is Some by {}
        }
    }
}

/// A metric can be merged where, and only where, the table gives a number for
/// each threshold of its buckets.
pub proof fn lemma_merged_samples_needs(metric: MetricView, table: Seq<ThresholdView>)
    ensures
        merged_samples(metric, table) is Some <==> (spec_policy(metric.typ, metric.mode)
            is Histogram ==> knows_all(table, sample_thresholds(metric.samples))),
{
    reveal(merged_samples);
    let policy = spec_policy(metric.typ, metric.mode);
    let acc = accumulate(policy, metric.samples);
    let texts = sample_thresholds(metric.samples);
    lemma_finish_groups_needs(
        plain_samples(acc.series),
        metric.name,
        acc.groups,
        table,
        acc.groups.len() as int,
    );
    assert forall|i: int| 0 <= i < acc.groups.len() implies (rank_buckets(
        (#[trigger] acc.groups[i]).buckets,
        table,
    ) is Some <==> forall|j: int|
        0 <= j < acc.groups[i].buckets.len() ==> threshold_of(
            table,
            (#[trigger] acc.groups[i].buckets[j]).le,
        ) is Some) by {
        lemma_rank_buckets_needs(acc.groups[i].buckets, table);
    }
    if policy is Histogram && knows_all(table, texts) {
        assert forall|i: int| 0 <= i < acc.groups.len() implies rank_buckets(
            (#[trigger] acc.groups[i]).buckets,
            table,
        ) is Some by {
            assert forall|j: int| 0 <= j < acc.groups[i].buckets.len() implies threshold_of(
                table,
                (#[trigger] acc.groups[i].buckets[j]).le,
            ) is Some by {
                let le = acc.groups[i].buckets[j].le;
                assert(holds_threshold(acc.groups[i].buckets, le));
                assert(has_threshold(acc.groups, le));
                lemma_buckets_are_of_samples(policy, metric.samples, le);
                let k = choose|k: int| 0 <= k < texts.len() && texts[k] == le;
                assert(threshold_of(table, texts[k]) is Some);
            }
        }
    }
    if !(policy is Histogram) {
        assert forall|i: int| 0 <= i < acc.groups.len() implies rank_buckets(
            (#[trigger] acc.groups[i]).buckets,
            table,
        ) is Some by {
            assert forall|j: int| 0 <= j < acc.groups[i].buckets.len() implies threshold_of(
                table,
                (#[trigger] acc.groups[i].buckets[j]).le,
            ) is Some by {
                let le = acc.groups[i].buckets[j].le;
                assert(holds_threshold(acc.groups[i].buckets, le));
                assert(has_threshold(acc.groups, le));
                lemma_buckets_are_of_samples(policy, metric.samples, le);
            }
        }
    }
    if merged_samples(metric, table) is Some && policy is Histogram {
        assert forall|k: int| 0 <= k < texts.len() implies threshold_of(
            table,
            #[trigger] texts[k],
        ) is Some by {
            let le = texts[k];
            assert(texts.contains(le));
            lemma_buckets_are_of_samples(policy, metric.samples, le);
            let i = choose|i: int|
                0 <= i < acc.groups.len() && holds_threshold((#[trigger] acc.groups[i]).buckets, le);
            let j = choose|j: int|
                0 <= j < acc.groups[i].buckets.len() && (#[trigger] acc.groups[i].buckets[j]).le
                    == le;
            assert(rank_buckets(acc.groups[i].buckets, table) is Some);
            assert(threshold_of(table, acc.groups[i].buckets[j].le) is Some);
        }
    }
}

/// The merge of the metrics succeeds where, and only where, the table gives
/// a number for each of the thresholds that [`histogram_thresholds`] lists.
pub proof fn lemma_merge_needs_listed_thresholds(
    metrics: Seq<MetricView>,
    table: Seq<ThresholdView>,
)
    ensures
        merged_metrics(metrics, table) is Some <==> knows_all(
            table,
            spec_histogram_thresholds(metrics),
        ),
    decreases metrics.len(),
{
    if metrics.len() > 0 {
        let front = metrics.drop_last();
        let last = metrics.last();
        lemma_merge_needs_listed_thresholds(front, table);
        lemma_merged_samples_needs(last, table);
        let a = spec_histogram_thresholds(front);
        let b = sample_thresholds(last.samples);
        if spec_policy(last.typ, last.mode) is Histogram {
            if knows_all(table, a + b) {
                assert forall|k: int| 0 <= k < a.len() implies threshold_of(
                    table,
                    #[trigger] a[k],
                ) is Some by {
                    assert((a + b)[k] == a[k]);
                }
                assert forall|k: int| 0 <= k < b.len() implies threshold_of(
                    table,
                    #[trigger] b[k],
                ) is Some by {
                    assert((a + b)[k + a.len()] == b[k]);
                }
            }
            if knows_all(table, a) && knows_all(table, b) {
                assert forall|k: int| 0 <= k < (a + b).len() implies threshold_of(
                    table,
                    #[trigger] (a + b)[k],
                ) is Some by {
                    if k < a.len() {
                        assert((a + b)[k] == a[k]);
                    } else {
                        assert((a + b)[k] == b[k - a.len()]);
                    }
                }
            }
        }
    }
}

} // verus!
