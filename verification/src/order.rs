//! What the fold of the samples of a metric does not depend on.
//!
//! The samples of a series are its contributions. The series that the fold
//! makes of them is the fold of the contributions alone, so samples of other
//! series may stand between them in any way. Where the samples of one file
//! are taken before or behind those of another, the contributions of a series
//! change their order at most; what that does to the series depends on the
//! policy.

use crate::aggregate::{
    absorb_bucket, absorb_series, absorb_value, accumulate, bucket_thresholds, combine,
    group_labels, series_key, series_keys, BucketView, GroupView, SeriesKey, SeriesView,
};
use crate::binary64::{is_nan, less_than, place};
use crate::lookup::{
    first_place, lemma_first_place, lemma_first_place_found, lemma_first_place_with_key,
    lemma_with_key_no_duplicates, with_key,
};
use crate::histogram::{sample_keys, ThresholdView};
use crate::merge::{merged_samples, plain_sample, plain_samples};
use crate::metric::{spec_policy, MergedSampleView, MetricView, Policy, SampleView};
use vstd::prelude::*;
use vstd::seq_lib::lemma_multiset_commutative;

verus! {

/// The series of the key among the series, if it is among them.
pub open spec fn series_of(series: Seq<SeriesView>, key: SeriesKey) -> Option<SeriesView> {
    match first_place(series_keys(series), key) {
        Some(i) => Some(series[i]),
        None => None,
    }
}

/// Whether the sample is folded into the series of the key.
pub open spec fn belongs(policy: Policy, sample: SampleView, key: SeriesKey) -> bool {
    !(policy is Histogram && sample.labels.contains_key("le"@)) && series_key(policy, sample)
        == key
}

/// The samples that are folded into the series of the key, in their order.
pub open spec fn contributions(policy: Policy, samples: Seq<SampleView>, key: SeriesKey) -> Seq<
    SampleView,
>
    decreases samples.len(),
{
    if samples.len() == 0 {
        Seq::empty()
    } else if belongs(policy, samples.last(), key) {
        contributions(policy, samples.drop_last(), key).push(samples.last())
    } else {
        contributions(policy, samples.drop_last(), key)
    }
}

/// The series that its first sample makes.
pub open spec fn fresh(policy: Policy, sample: SampleView) -> SeriesView {
    SeriesView {
        key: series_key(policy, sample),
        terms: seq![sample.value],
        timestamp: sample.timestamp,
    }
}

/// The series that contributions fold to, of which there is at least one.
pub open spec fn folded(policy: Policy, samples: Seq<SampleView>) -> SeriesView
    decreases samples.len(),
{
    if samples.len() <= 1 {
        fresh(policy, samples[0])
    } else {
        combine(policy, folded(policy, samples.drop_last()), samples.last())
    }
}

/// The series that contributions fold to, and none where there are none.
pub open spec fn folded_series(policy: Policy, samples: Seq<SampleView>) -> Option<SeriesView> {
    if samples.len() == 0 {
        None
    } else {
        Some(folded(policy, samples))
    }
}

/// The values of samples.
pub open spec fn values_of(samples: Seq<SampleView>) -> Seq<u64> {
    samples.map_values(|s: SampleView| s.value)
}

/// A sample changes the series of its key, and no other.
pub proof fn lemma_series_after_sample(
    series: Seq<SeriesView>,
    policy: Policy,
    sample: SampleView,
    key: SeriesKey,
)
    ensures
        series_of(absorb_series(series, policy, sample), key) == if key == series_key(
            policy,
            sample,
        ) {
            match series_of(series, key) {
                Some(current) => Some(combine(policy, current, sample)),
                None => Some(fresh(policy, sample)),
            }
        } else {
            series_of(series, key)
        },
{
    let keys = series_keys(series);
    let own = series_key(policy, sample);
    let after = absorb_series(series, policy, sample);
    lemma_first_place(keys, own);
    lemma_first_place(keys, key);
    match first_place(keys, own) {
        Some(i) => {
            assert(series[i].key == own);
            assert(series_keys(after) =~= keys);
        },
        None => {
            let keys_after = series_keys(after);
            assert(keys_after =~= keys.push(own));
            match first_place(keys, key) {
                Some(j) => {
                    assert(keys_after[j] == key);
                    assert forall|m: int| 0 <= m < j implies keys_after[m] != key by {
                        assert(keys_after[m] == keys[m]);
                    }
                    lemma_first_place_found(keys_after, key, j);
                },
                None => {
                    if key == own {
                        assert forall|m: int| 0 <= m < keys.len() implies keys_after[m] != key by {
                            assert(keys_after[m] == keys[m]);
                        }
                        lemma_first_place_found(keys_after, key, keys.len() as int);
                    } else {
                        assert forall|m: int| 0 <= m < keys_after.len() implies keys_after[m]
                            != key by {
                            if m < keys.len() {
                                assert(keys_after[m] == keys[m]);
                            }
                        }
                    }
                },
            }
        },
    }
}

/// The series of a key is the fold of its contributions.
pub proof fn lemma_series_is_fold_of_contributions(
    policy: Policy,
    samples: Seq<SampleView>,
    key: SeriesKey,
)
    ensures
        series_of(accumulate(policy, samples).series, key) == folded_series(
            policy,
            contributions(policy, samples, key),
        ),
    decreases samples.len(),
{
    if samples.len() == 0 {
        assert(series_keys(Seq::<SeriesView>::empty()) =~= Seq::<SeriesKey>::empty());
    } else {
        let front = samples.drop_last();
        let last = samples.last();
        lemma_series_is_fold_of_contributions(policy, front, key);
        let before = accumulate(policy, front);
        let given = contributions(policy, front, key);
        if policy is Histogram && last.labels.contains_key("le"@) {
        } else {
            lemma_series_after_sample(before.series, policy, last, key);
            if key == series_key(policy, last) {
                assert(given.push(last).drop_last() =~= given);
            }
        }
    }
}

/// The contributions of two runs of samples, one behind the other, are those
/// of the first and behind them those of the second.
pub proof fn lemma_contributions_concat(
    policy: Policy,
    a: Seq<SampleView>,
    b: Seq<SampleView>,
    key: SeriesKey,
)
    ensures
        contributions(policy, a + b, key) == contributions(policy, a, key) + contributions(
            policy,
            b,
            key,
        ),
    decreases b.len(),
{
    if b.len() == 0 {
        assert(a + b =~= a);
        assert(contributions(policy, a, key) + contributions(policy, b, key) =~= contributions(
            policy,
            a,
            key,
        ));
    } else {
        assert((a + b).drop_last() =~= a + b.drop_last());
        lemma_contributions_concat(policy, a, b.drop_last(), key);
        let ca = contributions(policy, a, key);
        let cb = contributions(policy, b.drop_last(), key);
        assert((ca + cb).push(b.last()) =~= ca + cb.push(b.last()));
    }
}

/// Under a policy that adds, a series holds the values of its contributions,
/// in their order.
pub proof fn lemma_sum_holds_all_values(policy: Policy, samples: Seq<SampleView>)
    requires
        policy is Sum || policy is Counter || policy is Histogram,
        samples.len() > 0,
    ensures
        folded(policy, samples).terms == values_of(samples),
    decreases samples.len(),
{
    if samples.len() <= 1 {
        assert(values_of(samples) =~= seq![samples[0].value]);
    } else {
        lemma_sum_holds_all_values(policy, samples.drop_last());
        assert(values_of(samples) =~= values_of(samples.drop_last()).push(samples.last().value));
    }
}

/// A series that gets its samples from one of two runs alone is the same
/// whichever of the runs is taken first. This holds under every policy.
pub proof fn lemma_series_of_one_run_ignores_order(
    policy: Policy,
    a: Seq<SampleView>,
    b: Seq<SampleView>,
    key: SeriesKey,
)
    requires
        contributions(policy, a, key).len() == 0 || contributions(policy, b, key).len() == 0,
    ensures
        series_of(accumulate(policy, a + b).series, key) == series_of(
            accumulate(policy, b + a).series,
            key,
        ),
{
    let ca = contributions(policy, a, key);
    let cb = contributions(policy, b, key);
    lemma_contributions_concat(policy, a, b, key);
    lemma_contributions_concat(policy, b, a, key);
    lemma_series_is_fold_of_contributions(policy, a + b, key);
    lemma_series_is_fold_of_contributions(policy, b + a, key);
    assert(ca + cb =~= cb + ca);
}

/// Under a policy that adds, taking the samples of one run before or behind
/// those of another gives the same series, each with the same terms to add,
/// in another order at most.
pub proof fn lemma_sums_ignore_order(
    policy: Policy,
    a: Seq<SampleView>,
    b: Seq<SampleView>,
    key: SeriesKey,
)
    requires
        policy is Sum || policy is Counter || policy is Histogram,
    ensures
        match (
            series_of(accumulate(policy, a + b).series, key),
            series_of(accumulate(policy, b + a).series, key),
        ) {
            (Some(x), Some(y)) => x.terms.to_multiset() == y.terms.to_multiset(),
            (None, None) => true,
            _ => false,
        },
{
    let ca = contributions(policy, a, key);
    let cb = contributions(policy, b, key);
    lemma_contributions_concat(policy, a, b, key);
    lemma_contributions_concat(policy, b, a, key);
    lemma_series_is_fold_of_contributions(policy, a + b, key);
    lemma_series_is_fold_of_contributions(policy, b + a, key);
    if (ca + cb).len() > 0 {
        lemma_sum_holds_all_values(policy, ca + cb);
        lemma_sum_holds_all_values(policy, cb + ca);
        assert(values_of(ca + cb) =~= values_of(ca) + values_of(cb));
        assert(values_of(cb + ca) =~= values_of(cb) + values_of(ca));
        lemma_multiset_commutative(values_of(ca), values_of(cb));
        lemma_multiset_commutative(values_of(cb), values_of(ca));
        assert(values_of(ca).to_multiset().add(values_of(cb).to_multiset()) =~= values_of(
            cb,
        ).to_multiset().add(values_of(ca).to_multiset()));
    }
}

/// The value that a gauge of the least value keeps of the values, taken in
/// their order: a value takes the place of the kept one where it is less.
pub open spec fn least(values: Seq<u64>) -> u64
    decreases values.len(),
{
    if values.len() <= 1 {
        values[0]
    } else if less_than(values.last(), least(values.drop_last())) {
        values.last()
    } else {
        least(values.drop_last())
    }
}

/// The value that a gauge of the greatest value keeps of the values, taken
/// in their order: a value takes the place of the kept one where it is greater.
pub open spec fn greatest(values: Seq<u64>) -> u64
    decreases values.len(),
{
    if values.len() <= 1 {
        values[0]
    } else if less_than(greatest(values.drop_last()), values.last()) {
        values.last()
    } else {
        greatest(values.drop_last())
    }
}

/// The sample that a gauge of the latest value keeps of the samples, taken in
/// their order: a sample takes the place of the kept one where its timestamp
/// is later.
pub open spec fn latest(samples: Seq<SampleView>) -> SampleView
    decreases samples.len(),
{
    if samples.len() <= 1 {
        samples[0]
    } else if less_than(latest(samples.drop_last()).timestamp, samples.last().timestamp) {
        samples.last()
    } else {
        latest(samples.drop_last())
    }
}

/// Whether each of the values is a number, and no two of them are the zeros
/// of the two signs.
pub open spec fn comparable(values: Seq<u64>) -> bool {
    &&& forall|i: int| 0 <= i < values.len() ==> !is_nan(#[trigger] values[i])
    &&& forall|i: int, j: int|
        0 <= i < values.len() && 0 <= j < values.len() && place(#[trigger] values[i]) == place(
            #[trigger] values[j],
        ) ==> values[i] == values[j]
}

/// Whether the timestamp of each sample is a number, and no two samples are
/// of one moment.
pub open spec fn of_distinct_moments(samples: Seq<SampleView>) -> bool {
    &&& forall|i: int| 0 <= i < samples.len() ==> !is_nan((#[trigger] samples[i]).timestamp)
    &&& forall|i: int, j: int|
        0 <= i < j < samples.len() ==> place((#[trigger] samples[i]).timestamp) != place(
            (#[trigger] samples[j]).timestamp,
        )
}

/// Under the policy of the least value a series holds the least of the
/// values of its contributions.
pub proof fn lemma_min_holds_least(samples: Seq<SampleView>)
    requires
        samples.len() > 0,
    ensures
        folded(Policy::Min, samples).terms == seq![least(values_of(samples))],
    decreases samples.len(),
{
    if samples.len() > 1 {
        lemma_min_holds_least(samples.drop_last());
        assert(values_of(samples).drop_last() =~= values_of(samples.drop_last()));
    }
}

/// Under the policy of the greatest value a series holds the greatest of the
/// values of its contributions.
pub proof fn lemma_max_holds_greatest(samples: Seq<SampleView>)
    requires
        samples.len() > 0,
    ensures
        folded(Policy::Max, samples).terms == seq![greatest(values_of(samples))],
    decreases samples.len(),
{
    if samples.len() > 1 {
        lemma_max_holds_greatest(samples.drop_last());
        assert(values_of(samples).drop_last() =~= values_of(samples.drop_last()));
    }
}

/// Under the policy of the latest value a series holds the value and the
/// timestamp of the latest of its contributions.
pub proof fn lemma_most_recent_holds_latest(samples: Seq<SampleView>)
    requires
        samples.len() > 0,
    ensures
        folded(Policy::MostRecent, samples).terms == seq![latest(samples).value],
        folded(Policy::MostRecent, samples).timestamp == latest(samples).timestamp,
    decreases samples.len(),
{
    if samples.len() > 1 {
        lemma_most_recent_holds_latest(samples.drop_last());
    }
}

/// The least of values that are numbers is one of them, and none of them is
/// less.
pub proof fn lemma_least_is_a_lower_bound(values: Seq<u64>)
    requires
        values.len() > 0,
        forall|i: int| 0 <= i < values.len() ==> !is_nan(#[trigger] values[i]),
    ensures
        values.contains(least(values)),
        forall|i: int| 0 <= i < values.len() ==> place(least(values)) <= place(#[trigger] values[i]),
    decreases values.len(),
{
    if values.len() <= 1 {
        assert(values[0] == least(values));
    } else {
        let front = values.drop_last();
        assert forall|i: int| 0 <= i < front.len() implies !is_nan(#[trigger] front[i]) by {
            assert(front[i] == values[i]);
        }
        lemma_least_is_a_lower_bound(front);
        let k = choose|k: int| 0 <= k < front.len() && front[k] == least(front);
        assert(values[k] == least(front));
        assert(values[values.len() - 1] == values.last());
        assert forall|i: int| 0 <= i < values.len() implies place(least(values)) <= place(
            #[trigger] values[i],
        ) by {
            if i < front.len() {
                assert(front[i] == values[i]);
            }
        }
    }
}

/// The greatest of values that are numbers is one of them, and none of them
/// is greater.
pub proof fn lemma_greatest_is_an_upper_bound(values: Seq<u64>)
    requires
        values.len() > 0,
        forall|i: int| 0 <= i < values.len() ==> !is_nan(#[trigger] values[i]),
    ensures
        values.contains(greatest(values)),
        forall|i: int|
            0 <= i < values.len() ==> place(#[trigger] values[i]) <= place(greatest(values)),
    decreases values.len(),
{
    if values.len() <= 1 {
        assert(values[0] == greatest(values));
    } else {
        let front = values.drop_last();
        assert forall|i: int| 0 <= i < front.len() implies !is_nan(#[trigger] front[i]) by {
            assert(front[i] == values[i]);
        }
        lemma_greatest_is_an_upper_bound(front);
        let k = choose|k: int| 0 <= k < front.len() && front[k] == greatest(front);
        assert(values[k] == greatest(front));
        assert(values[values.len() - 1] == values.last());
        assert forall|i: int| 0 <= i < values.len() implies place(#[trigger] values[i]) <= place(
            greatest(values),
        ) by {
            if i < front.len() {
                assert(front[i] == values[i]);
            }
        }
    }
}

/// The latest of samples whose timestamps are numbers is one of them, and
/// none of them is later.
pub proof fn lemma_latest_is_an_upper_bound(samples: Seq<SampleView>)
    requires
        samples.len() > 0,
        forall|i: int| 0 <= i < samples.len() ==> !is_nan((#[trigger] samples[i]).timestamp),
    ensures
        samples.contains(latest(samples)),
        forall|i: int|
            0 <= i < samples.len() ==> place((#[trigger] samples[i]).timestamp) <= place(
                latest(samples).timestamp,
            ),
    decreases samples.len(),
{
    if samples.len() <= 1 {
        assert(samples[0] == latest(samples));
    } else {
        let front = samples.drop_last();
        assert forall|i: int| 0 <= i < front.len() implies !is_nan(
            (#[trigger] front[i]).timestamp,
        ) by {
            assert(front[i] == samples[i]);
        }
        lemma_latest_is_an_upper_bound(front);
        let k = choose|k: int| 0 <= k < front.len() && front[k] == latest(front);
        assert(samples[k] == latest(front));
        assert(samples[samples.len() - 1] == samples.last());
        assert forall|i: int| 0 <= i < samples.len() implies place(
            (#[trigger] samples[i]).timestamp,
        ) <= place(latest(samples).timestamp) by {
            if i < front.len() {
                assert(front[i] == samples[i]);
            }
        }
    }
}

/// What is in one of two runs, taken in one order, is there in the other
/// order, at the place that the ensures gives.
proof fn lemma_swapped_place<A>(x: Seq<A>, y: Seq<A>, i: int)
    requires
        0 <= i < x.len() + y.len(),
    ensures
        (x + y)[i] == (y + x)[if i < x.len() {
            i + y.len()
        } else {
            i - x.len()
        }],
{
}

/// Under the policy of the least value, taking the samples of one run before
/// or behind those of another gives the same series with the same value,
/// where the values that fall together are numbers that compare as they
/// differ.
pub proof fn lemma_mins_ignore_order(a: Seq<SampleView>, b: Seq<SampleView>, key: SeriesKey)
    requires
        comparable(values_of(contributions(Policy::Min, a + b, key))),
    ensures
        match (
            series_of(accumulate(Policy::Min, a + b).series, key),
            series_of(accumulate(Policy::Min, b + a).series, key),
        ) {
            (Some(x), Some(y)) => x.terms == y.terms,
            (None, None) => true,
            _ => false,
        },
{
    let policy = Policy::Min;
    let ca = contributions(policy, a, key);
    let cb = contributions(policy, b, key);
    lemma_contributions_concat(policy, a, b, key);
    lemma_contributions_concat(policy, b, a, key);
    lemma_series_is_fold_of_contributions(policy, a + b, key);
    lemma_series_is_fold_of_contributions(policy, b + a, key);
    if (ca + cb).len() > 0 {
        let v = values_of(ca + cb);
        let w = values_of(cb + ca);
        lemma_min_holds_least(ca + cb);
        lemma_min_holds_least(cb + ca);
        assert forall|i: int| 0 <= i < w.len() implies !is_nan(#[trigger] w[i]) && v.contains(
            w[i],
        ) by {
            lemma_swapped_place(cb, ca, i);
            let j = if i < cb.len() { i + ca.len() } else { i - cb.len() };
            assert(w[i] == v[j]);
        }
        assert forall|i: int| 0 <= i < v.len() implies w.contains(#[trigger] v[i]) by {
            lemma_swapped_place(ca, cb, i);
            let j = if i < ca.len() { i + cb.len() } else { i - ca.len() };
            assert(v[i] == w[j]);
        }
        lemma_least_is_a_lower_bound(v);
        lemma_least_is_a_lower_bound(w);
        let i = choose|i: int| 0 <= i < v.len() && v[i] == least(v);
        let j = choose|j: int| 0 <= j < w.len() && w[j] == least(w);
        assert(w.contains(v[i]));
        assert(v.contains(w[j]));
        let i2 = choose|i2: int| 0 <= i2 < w.len() && w[i2] == v[i];
        let j2 = choose|j2: int| 0 <= j2 < v.len() && v[j2] == w[j];
        assert(place(least(w)) <= place(w[i2]));
        assert(place(least(v)) <= place(v[j2]));
        assert(place(v[i]) == place(v[j2]));
    }
}

/// Under the policy of the greatest value, taking the samples of one run
/// before or behind those of another gives the same series with the same
/// value, where the values that fall together are numbers that compare as
/// they differ.
pub proof fn lemma_maxs_ignore_order(a: Seq<SampleView>, b: Seq<SampleView>, key: SeriesKey)
    requires
        comparable(values_of(contributions(Policy::Max, a + b, key))),
    ensures
        match (
            series_of(accumulate(Policy::Max, a + b).series, key),
            series_of(accumulate(Policy::Max, b + a).series, key),
        ) {
            (Some(x), Some(y)) => x.terms == y.terms,
            (None, None) => true,
            _ => false,
        },
{
    let policy = Policy::Max;
    let ca = contributions(policy, a, key);
    let cb = contributions(policy, b, key);
    lemma_contributions_concat(policy, a, b, key);
    lemma_contributions_concat(policy, b, a, key);
    lemma_series_is_fold_of_contributions(policy, a + b, key);
    lemma_series_is_fold_of_contributions(policy, b + a, key);
    if (ca + cb).len() > 0 {
        let v = values_of(ca + cb);
        let w = values_of(cb + ca);
        lemma_max_holds_greatest(ca + cb);
        lemma_max_holds_greatest(cb + ca);
        assert forall|i: int| 0 <= i < w.len() implies !is_nan(#[trigger] w[i]) && v.contains(
            w[i],
        ) by {
            lemma_swapped_place(cb, ca, i);
            let j = if i < cb.len() { i + ca.len() } else { i - cb.len() };
            assert(w[i] == v[j]);
        }
        assert forall|i: int| 0 <= i < v.len() implies w.contains(#[trigger] v[i]) by {
            lemma_swapped_place(ca, cb, i);
            let j = if i < ca.len() { i + cb.len() } else { i - ca.len() };
            assert(v[i] == w[j]);
        }
        lemma_greatest_is_an_upper_bound(v);
        lemma_greatest_is_an_upper_bound(w);
        let i = choose|i: int| 0 <= i < v.len() && v[i] == greatest(v);
        let j = choose|j: int| 0 <= j < w.len() && w[j] == greatest(w);
        assert(w.contains(v[i]));
        assert(v.contains(w[j]));
        let i2 = choose|i2: int| 0 <= i2 < w.len() && w[i2] == v[i];
        let j2 = choose|j2: int| 0 <= j2 < v.len() && v[j2] == w[j];
        assert(place(w[i2]) <= place(greatest(w)));
        assert(place(v[j2]) <= place(greatest(v)));
        assert(place(v[i]) == place(v[j2]));
    }
}

/// Under the policy of the latest value, taking the samples of one run before
/// or behind those of another gives the same series with the same value,
/// where the samples that fall together are of distinct moments.
pub proof fn lemma_most_recents_ignore_order(
    a: Seq<SampleView>,
    b: Seq<SampleView>,
    key: SeriesKey,
)
    requires
        of_distinct_moments(contributions(Policy::MostRecent, a + b, key)),
    ensures
        match (
            series_of(accumulate(Policy::MostRecent, a + b).series, key),
            series_of(accumulate(Policy::MostRecent, b + a).series, key),
        ) {
            (Some(x), Some(y)) => x.terms == y.terms,
            (None, None) => true,
            _ => false,
        },
{
    let policy = Policy::MostRecent;
    let ca = contributions(policy, a, key);
    let cb = contributions(policy, b, key);
    lemma_contributions_concat(policy, a, b, key);
    lemma_contributions_concat(policy, b, a, key);
    lemma_series_is_fold_of_contributions(policy, a + b, key);
    lemma_series_is_fold_of_contributions(policy, b + a, key);
    if (ca + cb).len() > 0 {
        let v = ca + cb;
        let w = cb + ca;
        lemma_most_recent_holds_latest(v);
        lemma_most_recent_holds_latest(w);
        assert forall|i: int| 0 <= i < w.len() implies !is_nan((#[trigger] w[i]).timestamp)
            && v.contains(w[i]) by {
            lemma_swapped_place(cb, ca, i);
            let j = if i < cb.len() { i + ca.len() } else { i - cb.len() };
            assert(w[i] == v[j]);
        }
        assert forall|i: int| 0 <= i < v.len() implies w.contains(#[trigger] v[i]) by {
            lemma_swapped_place(ca, cb, i);
            let j = if i < ca.len() { i + cb.len() } else { i - ca.len() };
            assert(v[i] == w[j]);
        }
        lemma_latest_is_an_upper_bound(v);
        lemma_latest_is_an_upper_bound(w);
        let i = choose|i: int| 0 <= i < v.len() && v[i] == latest(v);
        let j = choose|j: int| 0 <= j < w.len() && w[j] == latest(w);
        assert(w.contains(v[i]));
        assert(v.contains(w[j]));
        let i2 = choose|i2: int| 0 <= i2 < w.len() && w[i2] == v[i];
        let j2 = choose|j2: int| 0 <= j2 < v.len() && v[j2] == w[j];
        assert(place(w[i2].timestamp) <= place(latest(w).timestamp));
        assert(place(v[j2].timestamp) <= place(latest(v).timestamp));
        assert(place(v[i].timestamp) == place(v[j2].timestamp));
        assert(i == j2);
    }
}

/// The buckets of the group of the labels, and none where there is no such
/// group.
pub open spec fn buckets_of(groups: Seq<GroupView>, labels: Map<Seq<char>, Seq<char>>) -> Seq<
    BucketView,
> {
    match first_place(group_labels(groups), labels) {
        Some(i) => groups[i].buckets,
        None => Seq::empty(),
    }
}

/// The values of the bucket of the threshold, and none where there is no
/// such bucket.
pub open spec fn terms_of(buckets: Seq<BucketView>, le: Seq<char>) -> Seq<u64> {
    match first_place(bucket_thresholds(buckets), le) {
        Some(j) => buckets[j].terms,
        None => Seq::empty(),
    }
}

/// Whether the sample is folded into the bucket of the labels and the
/// threshold.
pub open spec fn falls_in(
    policy: Policy,
    sample: SampleView,
    labels: Map<Seq<char>, Seq<char>>,
    le: Seq<char>,
) -> bool {
    policy is Histogram && sample.labels.contains_key("le"@) && sample.labels.remove("le"@)
        == labels && sample.labels["le"@] == le
}

/// The values that are folded into the bucket of the labels and the
/// threshold, in their order.
pub open spec fn bucket_contributions(
    policy: Policy,
    samples: Seq<SampleView>,
    labels: Map<Seq<char>, Seq<char>>,
    le: Seq<char>,
) -> Seq<u64>
    decreases samples.len(),
{
    if samples.len() == 0 {
        Seq::empty()
    } else if falls_in(policy, samples.last(), labels, le) {
        bucket_contributions(policy, samples.drop_last(), labels, le).push(samples.last().value)
    } else {
        bucket_contributions(policy, samples.drop_last(), labels, le)
    }
}

/// A value changes the bucket of its threshold, and no other.
pub proof fn lemma_terms_after_value(buckets: Seq<BucketView>, own: Seq<char>, value: u64, le: Seq<char>)
    ensures
        terms_of(absorb_value(buckets, own, value), le) == if le == own {
            terms_of(buckets, le).push(value)
        } else {
            terms_of(buckets, le)
        },
        terms_of(absorb_value(buckets, own, value), own).len() > 0,
        first_place(bucket_thresholds(absorb_value(buckets, own, value)), le) is Some <==> (le
            == own || first_place(bucket_thresholds(buckets), le) is Some),
{
    let keys = bucket_thresholds(buckets);
    let after = absorb_value(buckets, own, value);
    lemma_first_place_with_key(keys, own, le);
    lemma_first_place_with_key(keys, own, own);
    assert(bucket_thresholds(after) =~= with_key(keys, own));
    match first_place(keys, own) {
        Some(i) => {},
        None => {
            assert(Seq::<u64>::empty().push(value) =~= seq![value]);
        },
    }
}

/// A sample of a bucket changes the group of its labels, and no other.
pub proof fn lemma_buckets_after_sample(
    groups: Seq<GroupView>,
    sample: SampleView,
    labels: Map<Seq<char>, Seq<char>>,
)
    ensures
        buckets_of(absorb_bucket(groups, sample), labels) == if labels == sample.labels.remove(
            "le"@,
        ) {
            absorb_value(buckets_of(groups, labels), sample.labels["le"@], sample.value)
        } else {
            buckets_of(groups, labels)
        },
{
    let keys = group_labels(groups);
    let own = sample.labels.remove("le"@);
    let after = absorb_bucket(groups, sample);
    lemma_first_place_with_key(keys, own, labels);
    lemma_first_place_with_key(keys, own, own);
    assert(group_labels(after) =~= with_key(keys, own));
    match first_place(keys, own) {
        Some(i) => {},
        None => {
            assert(bucket_thresholds(Seq::<BucketView>::empty()) =~= Seq::<Seq<char>>::empty());
            assert(absorb_value(Seq::empty(), sample.labels["le"@], sample.value) =~= seq![
                BucketView { le: sample.labels["le"@], terms: seq![sample.value] },
            ]);
        },
    }
}

/// A bucket holds the values of its contributions, in their order; there is
/// no bucket without a contribution.
pub proof fn lemma_bucket_holds_contributions(
    policy: Policy,
    samples: Seq<SampleView>,
    labels: Map<Seq<char>, Seq<char>>,
    le: Seq<char>,
)
    ensures
        terms_of(buckets_of(accumulate(policy, samples).groups, labels), le)
            == bucket_contributions(policy, samples, labels, le),
        first_place(
            bucket_thresholds(buckets_of(accumulate(policy, samples).groups, labels)),
            le,
        ) is Some <==> bucket_contributions(policy, samples, labels, le).len() > 0,
    decreases samples.len(),
{
    if samples.len() == 0 {
        assert(group_labels(Seq::<GroupView>::empty()) =~= Seq::<Map<Seq<char>, Seq<char>>>::empty());
        assert(bucket_thresholds(Seq::<BucketView>::empty()) =~= Seq::<Seq<char>>::empty());
    } else {
        let front = samples.drop_last();
        let last = samples.last();
        lemma_bucket_holds_contributions(policy, front, labels, le);
        let before = accumulate(policy, front);
        if policy is Histogram && last.labels.contains_key("le"@) {
            lemma_buckets_after_sample(before.groups, last, labels);
            if labels == last.labels.remove("le"@) {
                lemma_terms_after_value(
                    buckets_of(before.groups, labels),
                    last.labels["le"@],
                    last.value,
                    le,
                );
            }
        }
    }
}

/// The contributions to a bucket of two runs of samples, one behind the
/// other, are those of the first and behind them those of the second.
pub proof fn lemma_bucket_contributions_concat(
    policy: Policy,
    a: Seq<SampleView>,
    b: Seq<SampleView>,
    labels: Map<Seq<char>, Seq<char>>,
    le: Seq<char>,
)
    ensures
        bucket_contributions(policy, a + b, labels, le) == bucket_contributions(
            policy,
            a,
            labels,
            le,
        ) + bucket_contributions(policy, b, labels, le),
    decreases b.len(),
{
    let ca = bucket_contributions(policy, a, labels, le);
    if b.len() == 0 {
        assert(a + b =~= a);
        assert(ca + bucket_contributions(policy, b, labels, le) =~= ca);
    } else {
        assert((a + b).drop_last() =~= a + b.drop_last());
        lemma_bucket_contributions_concat(policy, a, b.drop_last(), labels, le);
        let cb = bucket_contributions(policy, b.drop_last(), labels, le);
        assert((ca + cb).push(b.last().value) =~= ca + cb.push(b.last().value));
    }
}

/// Taking the samples of one run before or behind those of another gives the
/// same buckets, each with the same terms to add, in another order at most.
pub proof fn lemma_buckets_ignore_order(
    policy: Policy,
    a: Seq<SampleView>,
    b: Seq<SampleView>,
    labels: Map<Seq<char>, Seq<char>>,
    le: Seq<char>,
)
    ensures
        first_place(
            bucket_thresholds(buckets_of(accumulate(policy, a + b).groups, labels)),
            le,
        ) is Some <==> first_place(
            bucket_thresholds(buckets_of(accumulate(policy, b + a).groups, labels)),
            le,
        ) is Some,
        terms_of(buckets_of(accumulate(policy, a + b).groups, labels), le).to_multiset()
            == terms_of(buckets_of(accumulate(policy, b + a).groups, labels), le).to_multiset(),
{
    let ca = bucket_contributions(policy, a, labels, le);
    let cb = bucket_contributions(policy, b, labels, le);
    lemma_bucket_contributions_concat(policy, a, b, labels, le);
    lemma_bucket_contributions_concat(policy, b, a, labels, le);
    lemma_bucket_holds_contributions(policy, a + b, labels, le);
    lemma_bucket_holds_contributions(policy, b + a, labels, le);
    lemma_multiset_commutative(ca, cb);
    lemma_multiset_commutative(cb, ca);
    assert(ca.to_multiset().add(cb.to_multiset()) =~= cb.to_multiset().add(ca.to_multiset()));
}

/// The merged sample of the series among the samples, if there is one.
pub open spec fn merged_sample_of(samples: Seq<MergedSampleView>, key: SeriesKey) -> Option<
    MergedSampleView,
> {
    match first_place(sample_keys(samples), key) {
        Some(i) => Some(samples[i]),
        None => None,
    }
}

/// Whether two values are the same sums of sums, their terms in another
/// order at most.
pub open spec fn same_terms(x: Seq<Seq<u64>>, y: Seq<Seq<u64>>) -> bool {
    &&& x.len() == y.len()
    &&& forall|i: int| 0 <= i < x.len() ==> (#[trigger] x[i]).to_multiset() == y[i].to_multiset()
}

/// Whether two merged samples are the same, the terms of their sums in
/// another order at most.
pub open spec fn same_sample(x: Option<MergedSampleView>, y: Option<MergedSampleView>) -> bool {
    match (x, y) {
        (Some(x), Some(y)) => x.name == y.name && x.labels == y.labels && x.timestamp
            == y.timestamp && same_terms(x.value, y.value),
        (None, None) => true,
        _ => false,
    }
}

/// Only a histogram has buckets.
pub proof fn lemma_only_histograms_have_groups(policy: Policy, samples: Seq<SampleView>)
    requires
        !(policy is Histogram),
    ensures
        accumulate(policy, samples).groups.len() == 0,
    decreases samples.len(),
{
    if samples.len() > 0 {
        lemma_only_histograms_have_groups(policy, samples.drop_last());
    }
}

/// The merged samples of a metric that is no histogram are the samples of
/// its series.
pub proof fn lemma_merged_samples_are_plain(metric: MetricView, table: Seq<ThresholdView>, key: SeriesKey)
    requires
        !(spec_policy(metric.typ, metric.mode) is Histogram),
    ensures
        merged_samples(metric, table) is Some,
        merged_sample_of(merged_samples(metric, table)->Some_0, key) == match series_of(
            accumulate(spec_policy(metric.typ, metric.mode), metric.samples).series,
            key,
        ) {
            Some(series) => Some(plain_sample(series)),
            None => None,
        },
{
    reveal(merged_samples);
    let policy = spec_policy(metric.typ, metric.mode);
    lemma_only_histograms_have_groups(policy, metric.samples);
    let series = accumulate(policy, metric.samples).series;
    assert(sample_keys(plain_samples(series)) =~= series_keys(series));
    lemma_first_place(series_keys(series), key);
}

/// What must hold of the samples that fall together in a series for the
/// series not to depend on which of two runs of samples is taken first:
/// nothing where they are added up; that they are numbers that compare as
/// they differ where the least or the greatest counts; that they are of
/// distinct moments where the latest counts; that they are of one run where
/// the last counts.
#[verifier::opaque]
pub open spec fn order_free(
    policy: Policy,
    a: Seq<SampleView>,
    b: Seq<SampleView>,
    key: SeriesKey,
) -> bool {
    match policy {
        Policy::Sum | Policy::Counter | Policy::Histogram => true,
        Policy::Min | Policy::Max => comparable(values_of(contributions(policy, a + b, key))),
        Policy::MostRecent => of_distinct_moments(contributions(policy, a + b, key)),
        Policy::All => contributions(policy, a, key).len() == 0 || contributions(
            policy,
            b,
            key,
        ).len() == 0,
    }
}

/// Taking the samples of one run before or behind those of another gives the
/// same series, each with the same terms, in another order at most.
pub proof fn lemma_series_ignore_order(
    policy: Policy,
    a: Seq<SampleView>,
    b: Seq<SampleView>,
    key: SeriesKey,
)
    requires
        order_free(policy, a, b, key),
    ensures
        match (
            series_of(accumulate(policy, a + b).series, key),
            series_of(accumulate(policy, b + a).series, key),
        ) {
            (Some(x), Some(y)) => x.key == key && y.key == key && x.terms.to_multiset()
                == y.terms.to_multiset(),
            (None, None) => true,
            _ => false,
        },
{
    reveal(order_free);
    lemma_first_place(series_keys(accumulate(policy, a + b).series), key);
    lemma_first_place(series_keys(accumulate(policy, b + a).series), key);
    match policy {
        Policy::Sum | Policy::Counter | Policy::Histogram => {
            lemma_sums_ignore_order(policy, a, b, key);
        },
        Policy::Min => {
            lemma_mins_ignore_order(a, b, key);
        },
        Policy::Max => {
            lemma_maxs_ignore_order(a, b, key);
        },
        Policy::MostRecent => {
            lemma_most_recents_ignore_order(a, b, key);
        },
        Policy::All => {
            lemma_series_of_one_run_ignores_order(policy, a, b, key);
        },
    }
}

/// The samples of the series that are no buckets do not depend on which of
/// two runs of samples is taken first: each series has the same sample, the
/// terms of its sum in another order at most.
pub proof fn lemma_plain_samples_ignore_order(
    policy: Policy,
    a: Seq<SampleView>,
    b: Seq<SampleView>,
    key: SeriesKey,
)
    requires
        order_free(policy, a, b, key),
    ensures
        same_sample(
            merged_sample_of(plain_samples(accumulate(policy, a + b).series), key),
            merged_sample_of(plain_samples(accumulate(policy, b + a).series), key),
        ),
{
    let x = accumulate(policy, a + b).series;
    let y = accumulate(policy, b + a).series;
    assert(sample_keys(plain_samples(x)) =~= series_keys(x));
    assert(sample_keys(plain_samples(y)) =~= series_keys(y));
    lemma_first_place(series_keys(x), key);
    lemma_first_place(series_keys(y), key);
    lemma_series_ignore_order(policy, a, b, key);
}

/// The merged samples of a metric that is no histogram do not depend on
/// which of two runs of its samples is taken first: each series has the same
/// sample, the terms of its sum in another order at most.
pub proof fn lemma_merged_samples_ignore_order(
    first: MetricView,
    second: MetricView,
    a: Seq<SampleView>,
    b: Seq<SampleView>,
    table: Seq<ThresholdView>,
    key: SeriesKey,
)
    requires
        first.typ == second.typ,
        first.mode == second.mode,
        first.samples == a + b,
        second.samples == b + a,
        !(spec_policy(first.typ, first.mode) is Histogram),
        order_free(spec_policy(first.typ, first.mode), a, b, key),
    ensures
        merged_samples(first, table) is Some,
        merged_samples(second, table) is Some,
        same_sample(
            merged_sample_of(merged_samples(first, table)->Some_0, key),
            merged_sample_of(merged_samples(second, table)->Some_0, key),
        ),
{
    let policy = spec_policy(first.typ, first.mode);
    lemma_merged_samples_are_plain(first, table, key);
    lemma_merged_samples_are_plain(second, table, key);
    lemma_series_ignore_order(policy, a, b, key);
}

/// Whether the groups are as the fold of samples makes them: no two groups
/// share their labels, the threshold is none of the labels of a group, and
/// each group has buckets, of which no two share their threshold.
pub open spec fn well_grouped(groups: Seq<GroupView>) -> bool {
    &&& group_labels(groups).no_duplicates()
    &&& forall|i: int|
        0 <= i < groups.len() ==> !(#[trigger] groups[i]).labels.contains_key("le"@)
            && groups[i].buckets.len() > 0 && bucket_thresholds(groups[i].buckets).no_duplicates()
}

/// A sample of a bucket leaves the groups as the fold makes them.
proof fn lemma_well_grouped_after_sample(groups: Seq<GroupView>, sample: SampleView)
    requires
        well_grouped(groups),
    ensures
        well_grouped(absorb_bucket(groups, sample)),
{
    let own = sample.labels["le"@];
    let labels = sample.labels.remove("le"@);
    let after = absorb_bucket(groups, sample);
    let keys = group_labels(groups);
    lemma_first_place(keys, labels);
    lemma_with_key_no_duplicates(keys, labels);
    assert(group_labels(after) =~= with_key(keys, labels));
    match first_place(keys, labels) {
        Some(at) => {
            let buckets = groups[at].buckets;
            let les = bucket_thresholds(buckets);
            lemma_first_place(les, own);
            lemma_with_key_no_duplicates(les, own);
            assert(bucket_thresholds(absorb_value(buckets, own, sample.value)) =~= with_key(
                les,
                own,
            ));
            assert forall|i: int| 0 <= i < after.len() implies !(#[trigger] after[i]).labels.contains_key(
                "le"@,
            ) && after[i].buckets.len() > 0 && bucket_thresholds(after[i].buckets).no_duplicates() by {
                if i != at {
                    assert(after[i] == groups[i]);
                } else {
                    assert(after[i].labels == groups[i].labels);
                }
            }
        },
        None => {
            assert forall|i: int| 0 <= i < after.len() implies !(#[trigger] after[i]).labels.contains_key(
                "le"@,
            ) && after[i].buckets.len() > 0 && bucket_thresholds(after[i].buckets).no_duplicates() by {
                if i < groups.len() {
                    assert(after[i] == groups[i]);
                } else {
                    assert(bucket_thresholds(after[i].buckets) =~= seq![own]);
                }
            }
        },
    }
}

/// The groups of a fold of samples: no two share their labels, the threshold
/// is none of the labels of a group, and each has buckets, of which no two
/// share their threshold.
pub proof fn lemma_fold_is_well_grouped(policy: Policy, samples: Seq<SampleView>)
    ensures
        well_grouped(accumulate(policy, samples).groups),
    decreases samples.len(),
{
    if samples.len() == 0 {
        assert(group_labels(Seq::<GroupView>::empty()) =~= Seq::<Map<Seq<char>, Seq<char>>>::empty());
    } else {
        lemma_fold_is_well_grouped(policy, samples.drop_last());
        if policy is Histogram && samples.last().labels.contains_key("le"@) {
            lemma_well_grouped_after_sample(
                accumulate(policy, samples.drop_last()).groups,
                samples.last(),
            );
        }
    }
}

} // verus!
