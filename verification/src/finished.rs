//! The samples of a finished histogram, series by series.
//!
//! The buckets and the count of a group are put in among the samples of the
//! plain series. What the series of a key has in the end is read off the group
//! that the key belongs to: the sample of a bucket for the key of a bucket, the
//! count for the key of the count, and else the sample that was there.

use crate::aggregate::{
    accumulate, bucket_thresholds, group_labels, BucketView, GroupView, SeriesKey,
};
use crate::binary64::total_place;
use crate::histogram::{
    bucket_sample, count_sample, cumulative, finish_group, finish_groups, insert_ranked,
    is_sorted, lemma_sort_ranked_sorts, put, put_buckets, rank_buckets, sample_key, sample_keys,
    sort_ranked, threshold_of, RankedView, ThresholdView,
};
use crate::lookup::{
    first_place, lemma_first_place, lemma_first_place_found, lemma_first_place_with_key, with_key,
};
use crate::merge::{
    has_threshold, holds_threshold, knows_all, lemma_buckets_are_of_samples,
    lemma_rank_buckets_needs, merged_samples, plain_samples, sample_thresholds,
};
use crate::metric::{spec_policy, MergedSampleView, MetricView, Policy, SampleView};
use crate::order::{
    buckets_of, lemma_buckets_ignore_order, lemma_fold_is_well_grouped,
    lemma_plain_samples_ignore_order, merged_sample_of, order_free, same_sample, same_terms,
    terms_of,
};
use vstd::prelude::*;

verus! {

/// The thresholds of ranked buckets.
pub open spec fn ranked_thresholds(buckets: Seq<RankedView>) -> Seq<Seq<char>> {
    buckets.map_values(|b: RankedView| b.le)
}

/// The key of the sample of a bucket.
pub open spec fn bucket_key(
    name: Seq<char>,
    labels: Map<Seq<char>, Seq<char>>,
    le: Seq<char>,
) -> SeriesKey {
    SeriesKey { name: name + "_bucket"@, labels: labels.insert("le"@, le) }
}

/// The key of the sample of the count of a group.
pub open spec fn count_key(name: Seq<char>, labels: Map<Seq<char>, Seq<char>>) -> SeriesKey {
    SeriesKey { name: name + "_count"@, labels }
}

/// The bucket among the first `count` sorted buckets of a group whose sample
/// has the key, if there is one.
pub open spec fn bucket_for(
    name: Seq<char>,
    labels: Map<Seq<char>, Seq<char>>,
    sorted: Seq<RankedView>,
    count: int,
    key: SeriesKey,
) -> Option<int> {
    if key == bucket_key(name, labels, key.labels["le"@]) {
        first_place(ranked_thresholds(sorted.take(count)), key.labels["le"@])
    } else {
        None
    }
}

/// The sample that a group gives to the series of the key, if it gives one:
/// its count, or one of its buckets.
pub open spec fn group_sample(
    name: Seq<char>,
    labels: Map<Seq<char>, Seq<char>>,
    sorted: Seq<RankedView>,
    key: SeriesKey,
) -> Option<MergedSampleView> {
    if key == count_key(name, labels) {
        Some(count_sample(name, labels, sorted))
    } else {
        match bucket_for(name, labels, sorted, sorted.len() as int, key) {
            Some(j) => Some(bucket_sample(name, labels, sorted, j)),
            None => None,
        }
    }
}

/// A sample that is put in is the sample of its series, and leaves every
/// other series as it is.
pub proof fn lemma_sample_after_put(
    samples: Seq<MergedSampleView>,
    sample: MergedSampleView,
    key: SeriesKey,
)
    ensures
        merged_sample_of(put(samples, sample), key) == if key == sample_key(sample) {
            Some(sample)
        } else {
            merged_sample_of(samples, key)
        },
{
    let keys = sample_keys(samples);
    lemma_first_place_with_key(keys, sample_key(sample), key);
    lemma_first_place_with_key(keys, sample_key(sample), sample_key(sample));
    assert(sample_keys(put(samples, sample)) =~= with_key(keys, sample_key(sample)));
}

/// The name of a bucket sample is not that of a count.
pub proof fn lemma_bucket_is_no_count(name: Seq<char>)
    ensures
        name + "_bucket"@ != name + "_count"@,
{
    reveal_strlit("_bucket");
    reveal_strlit("_count");
    assert((name + "_bucket"@).len() == name.len() + 7);
    assert((name + "_count"@).len() == name.len() + 6);
}

/// After the buckets of a group were put in, the series of the key of a
/// bucket has the sample of the bucket, and every other series is as it was.
#[verifier::rlimit(40)]
pub proof fn lemma_sample_after_buckets(
    samples: Seq<MergedSampleView>,
    name: Seq<char>,
    labels: Map<Seq<char>, Seq<char>>,
    sorted: Seq<RankedView>,
    count: int,
    key: SeriesKey,
)
    requires
        0 <= count <= sorted.len(),
        ranked_thresholds(sorted).no_duplicates(),
    ensures
        merged_sample_of(put_buckets(samples, name, labels, sorted, count), key) == match bucket_for(
            name,
            labels,
            sorted,
            count,
            key,
        ) {
            Some(j) => Some(bucket_sample(name, labels, sorted, j)),
            None => merged_sample_of(samples, key),
        },
    decreases count,
{
    let les = ranked_thresholds(sorted);
    if count <= 0 {
        assert(ranked_thresholds(sorted.take(count)) =~= Seq::<Seq<char>>::empty());
    } else {
        lemma_sample_after_buckets(samples, name, labels, sorted, count - 1, key);
        let before = put_buckets(samples, name, labels, sorted, count - 1);
        let added = bucket_sample(name, labels, sorted, count - 1);
        lemma_sample_after_put(before, added, key);
        let shorter = ranked_thresholds(sorted.take(count - 1));
        let longer = ranked_thresholds(sorted.take(count));
        assert(longer =~= shorter.push(sorted[count - 1].le));
        let le = key.labels["le"@];
        lemma_first_place(shorter, le);
        lemma_first_place(longer, le);
        assert(les[count - 1] == sorted[count - 1].le);
        if key == sample_key(added) {
            assert(le == sorted[count - 1].le);
            assert forall|m: int| 0 <= m < shorter.len() implies shorter[m] != le by {
                assert(shorter[m] == les[m]);
            }
            assert(longer[count - 1] == le);
            match first_place(longer, le) {
                Some(j) => {
                    if j < count - 1 {
                        assert(longer[j] == shorter[j]);
                    }
                },
                None => {},
            }
        } else {
            if key == bucket_key(name, labels, le) {
                assert(le != sorted[count - 1].le);
                match first_place(longer, le) {
                    Some(j) => {
                        assert(j < count - 1);
                        assert(shorter[j] == longer[j]);
                        assert forall|m: int| 0 <= m < j implies shorter[m] != le by {
                            assert(shorter[m] == longer[m]);
                        }
                        lemma_first_place_found(shorter, le, j);
                    },
                    None => {
                        assert forall|m: int| 0 <= m < shorter.len() implies shorter[m] != le by {
                            assert(shorter[m] == longer[m]);
                        }
                    },
                }
            }
        }
    }
}

/// After a group was finished, the series of the key of its count or of one
/// of its buckets has the sample of the group, and every other series is as it
/// was.
pub proof fn lemma_sample_after_group(
    samples: Seq<MergedSampleView>,
    name: Seq<char>,
    group: GroupView,
    table: Seq<ThresholdView>,
    key: SeriesKey,
)
    requires
        rank_buckets(group.buckets, table) is Some,
        ranked_thresholds(sort_ranked(rank_buckets(group.buckets, table)->Some_0)).no_duplicates(),
    ensures
        finish_group(samples, name, group, table) is Some,
        merged_sample_of(finish_group(samples, name, group, table)->Some_0, key) == match group_sample(
            name,
            group.labels,
            sort_ranked(rank_buckets(group.buckets, table)->Some_0),
            key,
        ) {
            Some(sample) => Some(sample),
            None => merged_sample_of(samples, key),
        },
{
    reveal(finish_group);
    let sorted = sort_ranked(rank_buckets(group.buckets, table)->Some_0);
    let with_buckets = put_buckets(samples, name, group.labels, sorted, sorted.len() as int);
    lemma_sample_after_buckets(samples, name, group.labels, sorted, sorted.len() as int, key);
    lemma_sample_after_put(with_buckets, count_sample(name, group.labels, sorted), key);
    lemma_bucket_is_no_count(name);
}

/// The labels of the group that the key belongs to, if it belongs to one: the
/// labels of the key without the threshold.
pub open spec fn owner(key: SeriesKey) -> Map<Seq<char>, Seq<char>> {
    if key.labels.contains_key("le"@) {
        key.labels.remove("le"@)
    } else {
        key.labels
    }
}

/// The buckets of a group in the order of their thresholds.
pub open spec fn sorted_of(group: GroupView, table: Seq<ThresholdView>) -> Seq<RankedView> {
    sort_ranked(rank_buckets(group.buckets, table)->Some_0)
}

/// Whether the groups are as the fold of samples makes them, and the table
/// gives a number for each threshold: no two groups share their labels, the
/// threshold is none of the labels of a group, and no two buckets of a group
/// share their threshold.
pub open spec fn sound_groups(groups: Seq<GroupView>, table: Seq<ThresholdView>) -> bool {
    &&& group_labels(groups).no_duplicates()
    &&& forall|i: int| 0 <= i < groups.len() ==> !(#[trigger] groups[i]).labels.contains_key("le"@)
    &&& forall|i: int|
        0 <= i < groups.len() ==> rank_buckets((#[trigger] groups[i]).buckets, table) is Some
    &&& forall|i: int|
        0 <= i < groups.len() ==> ranked_thresholds(
            sorted_of(#[trigger] groups[i], table),
        ).no_duplicates()
}

/// The sample that the groups give to the series of the key, if they give
/// one: that of the group that the key belongs to.
pub open spec fn groups_sample(
    name: Seq<char>,
    groups: Seq<GroupView>,
    table: Seq<ThresholdView>,
    key: SeriesKey,
) -> Option<MergedSampleView> {
    match first_place(group_labels(groups), owner(key)) {
        Some(i) => group_sample(name, groups[i].labels, sorted_of(groups[i], table), key),
        None => None,
    }
}

/// A group gives samples to the series that belong to it alone.
pub proof fn lemma_group_sample_owner(
    name: Seq<char>,
    labels: Map<Seq<char>, Seq<char>>,
    sorted: Seq<RankedView>,
    key: SeriesKey,
)
    requires
        !labels.contains_key("le"@),
        group_sample(name, labels, sorted, key) is Some,
    ensures
        owner(key) == labels,
{
    if key == count_key(name, labels) {
    } else {
        assert(key.labels == labels.insert("le"@, key.labels["le"@]));
        assert(key.labels.remove("le"@) =~= labels);
    }
}

/// After the groups were finished, the series of a key has the sample that
/// the groups give it, and is as it was where they give none.
pub proof fn lemma_sample_after_groups(
    samples: Seq<MergedSampleView>,
    name: Seq<char>,
    groups: Seq<GroupView>,
    table: Seq<ThresholdView>,
    count: int,
    key: SeriesKey,
)
    requires
        0 <= count <= groups.len(),
        sound_groups(groups, table),
    ensures
        finish_groups(samples, name, groups, table, count) is Some,
        merged_sample_of(finish_groups(samples, name, groups, table, count)->Some_0, key)
            == match groups_sample(name, groups.take(count), table, key) {
            Some(sample) => Some(sample),
            None => merged_sample_of(samples, key),
        },
    decreases count,
{
    if count <= 0 {
        assert(group_labels(groups.take(count)) =~= Seq::<Map<Seq<char>, Seq<char>>>::empty());
    } else {
        lemma_sample_after_groups(samples, name, groups, table, count - 1, key);
        let before = finish_groups(samples, name, groups, table, count - 1)->Some_0;
        let group = groups[count - 1];
        lemma_sample_after_group(before, name, group, table, key);
        let shorter = group_labels(groups.take(count - 1));
        let longer = group_labels(groups.take(count));
        let all = group_labels(groups);
        assert(longer =~= shorter.push(group.labels));
        lemma_first_place(shorter, owner(key));
        lemma_first_place(longer, owner(key));
        assert(all[count - 1] == group.labels);
        assert(groups.take(count)[count - 1] == group);
        if group_sample(name, group.labels, sorted_of(group, table), key) is Some {
            lemma_group_sample_owner(name, group.labels, sorted_of(group, table), key);
            assert forall|m: int| 0 <= m < shorter.len() implies shorter[m] != owner(key) by {
                assert(shorter[m] == all[m]);
            }
            lemma_first_place_found(longer, owner(key), count - 1);
        } else {
            match first_place(longer, owner(key)) {
                Some(i) => {
                    if i < count - 1 {
                        assert(shorter[i] == longer[i]);
                        assert forall|m: int| 0 <= m < i implies shorter[m] != owner(key) by {
                            assert(shorter[m] == longer[m]);
                        }
                        lemma_first_place_found(shorter, owner(key), i);
                        assert(groups.take(count)[i] == groups.take(count - 1)[i]);
                    } else {
                        assert forall|m: int| 0 <= m < shorter.len() implies shorter[m] != owner(
                            key,
                        ) by {
                            assert(shorter[m] == longer[m]);
                        }
                    }
                },
                None => {
                    assert forall|m: int| 0 <= m < shorter.len() implies shorter[m] != owner(
                        key,
                    ) by {
                        assert(shorter[m] == longer[m]);
                    }
                },
            }
        }
    }
}

/// The place at which a bucket goes into sorted buckets: behind the last
/// bucket whose threshold is not greater than its own.
pub open spec fn insert_place(sorted: Seq<RankedView>, bucket: RankedView) -> int
    decreases sorted.len(),
{
    if sorted.len() == 0 || total_place(sorted.last().bits) <= total_place(bucket.bits) {
        sorted.len() as int
    } else {
        insert_place(sorted.drop_last(), bucket)
    }
}

/// Putting a bucket into sorted buckets puts it at its place and moves no
/// other bucket past another.
pub proof fn lemma_insert_ranked_is_insert(sorted: Seq<RankedView>, bucket: RankedView)
    ensures
        0 <= insert_place(sorted, bucket) <= sorted.len(),
        insert_ranked(sorted, bucket) == sorted.insert(insert_place(sorted, bucket), bucket),
    decreases sorted.len(),
{
    if sorted.len() == 0 || total_place(sorted.last().bits) <= total_place(bucket.bits) {
        assert(sorted.push(bucket) =~= sorted.insert(sorted.len() as int, bucket));
    } else {
        let front = sorted.drop_last();
        lemma_insert_ranked_is_insert(front, bucket);
        let p = insert_place(front, bucket);
        assert(front.insert(p, bucket).push(sorted.last()) =~= sorted.insert(p, bucket));
    }
}

/// The buckets in the order of their thresholds are the buckets that were
/// given; where no two of those share a threshold, no two of these do.
pub proof fn lemma_sort_ranked_keeps_buckets(buckets: Seq<RankedView>)
    ensures
        sort_ranked(buckets).len() == buckets.len(),
        forall|b: RankedView| #[trigger] sort_ranked(buckets).contains(b) ==> buckets.contains(b),
        forall|b: RankedView| #[trigger] buckets.contains(b) ==> sort_ranked(buckets).contains(b),
        ranked_thresholds(buckets).no_duplicates() ==> ranked_thresholds(
            sort_ranked(buckets),
        ).no_duplicates(),
    decreases buckets.len(),
{
    if buckets.len() > 0 {
        let front = buckets.drop_last();
        let last = buckets.last();
        let sorted = sort_ranked(front);
        lemma_sort_ranked_keeps_buckets(front);
        lemma_insert_ranked_is_insert(sorted, last);
        let p = insert_place(sorted, last);
        let after = sorted.insert(p, last);
        assert forall|b: RankedView| #[trigger] after.contains(b) implies buckets.contains(b) by {
            if after.contains(b) {
                let i = choose|i: int| 0 <= i < after.len() && after[i] == b;
                if i < p {
                    assert(sorted[i] == b);
                    assert(sorted.contains(b));
                    let m = choose|m: int| 0 <= m < front.len() && front[m] == b;
                    assert(buckets[m] == b);
                } else if i == p {
                    assert(buckets[buckets.len() - 1] == b);
                } else {
                    assert(sorted[i - 1] == b);
                    assert(sorted.contains(b));
                    let m = choose|m: int| 0 <= m < front.len() && front[m] == b;
                    assert(buckets[m] == b);
                }
            }
        }
        assert forall|b: RankedView| #[trigger] buckets.contains(b) implies after.contains(b) by {
            if buckets.contains(b) {
                let m = choose|m: int| 0 <= m < buckets.len() && buckets[m] == b;
                if m < front.len() {
                    assert(front[m] == b);
                    assert(front.contains(b));
                    let i = choose|i: int| 0 <= i < sorted.len() && sorted[i] == b;
                    if i < p {
                        assert(after[i] == b);
                    } else {
                        assert(after[i + 1] == b);
                    }
                } else {
                    assert(after[p] == b);
                }
            }
        }
        if ranked_thresholds(buckets).no_duplicates() {
            let les = ranked_thresholds(buckets);
            assert(ranked_thresholds(front).no_duplicates()) by {
                assert forall|i: int, j: int|
                    0 <= i < front.len() && 0 <= j < front.len() && i != j implies ranked_thresholds(
                    front,
                )[i] != ranked_thresholds(front)[j] by {
                    assert(les[i] == front[i].le);
                    assert(les[j] == front[j].le);
                }
            }
            let slots = ranked_thresholds(after);
            assert forall|i: int, j: int|
                0 <= i < after.len() && 0 <= j < after.len() && i != j implies slots[i]
                != slots[j] by {
                let i0 = if i < p { i } else { i - 1 };
                let j0 = if j < p { j } else { j - 1 };
                if i != p && j != p {
                    assert(after[i] == sorted[i0]);
                    assert(after[j] == sorted[j0]);
                    assert(ranked_thresholds(sorted)[i0] != ranked_thresholds(sorted)[j0]);
                } else {
                    let other = if i == p { j0 } else { i0 };
                    assert(sorted.contains(sorted[other]));
                    let m = choose|m: int| 0 <= m < front.len() && front[m] == sorted[other];
                    assert(les[m] == sorted[other].le);
                    assert(les[buckets.len() - 1] == last.le);
                }
            }
        }
    }
}

/// The ranked buckets are the buckets, each with the number that the table
/// gives for its threshold.
pub proof fn lemma_ranked_are_buckets(buckets: Seq<BucketView>, table: Seq<ThresholdView>)
    requires
        rank_buckets(buckets, table) is Some,
    ensures
        rank_buckets(buckets, table)->Some_0.len() == buckets.len(),
        forall|m: int|
            0 <= m < buckets.len() ==> (#[trigger] rank_buckets(buckets, table)->Some_0[m])
                == (RankedView {
                le: buckets[m].le,
                terms: buckets[m].terms,
                bits: threshold_of(table, buckets[m].le)->Some_0,
            }) && threshold_of(table, buckets[m].le) is Some,
        ranked_thresholds(rank_buckets(buckets, table)->Some_0) == bucket_thresholds(buckets),
    decreases buckets.len(),
{
    let ranked = rank_buckets(buckets, table)->Some_0;
    if buckets.len() > 0 {
        let front = buckets.drop_last();
        lemma_ranked_are_buckets(front, table);
        let before = rank_buckets(front, table)->Some_0;
        assert forall|m: int| 0 <= m < buckets.len() implies (#[trigger] ranked[m]) == (RankedView {
            le: buckets[m].le,
            terms: buckets[m].terms,
            bits: threshold_of(table, buckets[m].le)->Some_0,
        }) && threshold_of(table, buckets[m].le) is Some by {
            if m < front.len() {
                assert(ranked[m] == before[m]);
                assert(front[m] == buckets[m]);
            }
        }
    }
    assert(ranked_thresholds(ranked) =~= bucket_thresholds(buckets));
}

/// Two runs of numbers that rise from each to the next, and hold the same
/// numbers, are the same.
pub proof fn lemma_rising_runs_are_equal(x: Seq<int>, y: Seq<int>)
    requires
        forall|i: int, j: int| 0 <= i < j < x.len() ==> x[i] < x[j],
        forall|i: int, j: int| 0 <= i < j < y.len() ==> y[i] < y[j],
        forall|v: int| x.contains(v) <==> y.contains(v),
    ensures
        x == y,
    decreases x.len(),
{
    if x.len() == 0 {
        if y.len() > 0 {
            assert(y.contains(y[0]));
        }
        assert(x =~= y);
    } else {
        assert(x.contains(x[0]));
        let k0 = choose|k: int| 0 <= k < y.len() && y[k] == x[0];
        let lx = x.last();
        let ly = y.last();
        assert(x.contains(x[x.len() - 1]));
        assert(y.contains(y[y.len() - 1]));
        let kx = choose|k: int| 0 <= k < y.len() && y[k] == lx;
        let ky = choose|k: int| 0 <= k < x.len() && x[k] == ly;
        assert(lx == ly);
        let xf = x.drop_last();
        let yf = y.drop_last();
        assert forall|v: int| xf.contains(v) <==> yf.contains(v) by {
            if xf.contains(v) {
                let i = choose|i: int| 0 <= i < xf.len() && xf[i] == v;
                assert(x[i] == v);
                assert(x.contains(v));
                let k = choose|k: int| 0 <= k < y.len() && y[k] == v;
                assert(v < lx);
                assert(k < y.len() - 1);
                assert(yf[k] == v);
            }
            if yf.contains(v) {
                let i = choose|i: int| 0 <= i < yf.len() && yf[i] == v;
                assert(y[i] == v);
                assert(y.contains(v));
                let k = choose|k: int| 0 <= k < x.len() && x[k] == v;
                assert(v < ly);
                assert(k < x.len() - 1);
                assert(xf[k] == v);
            }
        }
        assert forall|i: int, j: int| 0 <= i < j < xf.len() implies xf[i] < xf[j] by {
            assert(xf[i] == x[i] && xf[j] == x[j]);
        }
        assert forall|i: int, j: int| 0 <= i < j < yf.len() implies yf[i] < yf[j] by {
            assert(yf[i] == y[i] && yf[j] == y[j]);
        }
        lemma_rising_runs_are_equal(xf, yf);
        assert(x =~= xf.push(lx));
        assert(y =~= yf.push(ly));
    }
}

/// Whether the table gives numbers that differ for thresholds that differ.
#[verifier::opaque]
pub open spec fn thresholds_apart(table: Seq<ThresholdView>, les: Seq<Seq<char>>) -> bool {
    forall|i: int, j: int|
        0 <= i < les.len() && 0 <= j < les.len() && les[i] != les[j] ==> total_place(
            threshold_of(table, #[trigger] les[i])->Some_0,
        ) != total_place(threshold_of(table, #[trigger] les[j])->Some_0)
}

/// The places of sorted buckets in the total order of their thresholds.
pub open spec fn places_of(sorted: Seq<RankedView>) -> Seq<int> {
    sorted.map_values(|b: RankedView| total_place(b.bits))
}

/// What holds of the buckets of a group in the order of their thresholds:
/// each is one of the buckets of the group, with its values and the number of
/// its threshold; no two share a threshold; the thresholds do not fall.
pub proof fn lemma_sorted_buckets(buckets: Seq<BucketView>, table: Seq<ThresholdView>)
    requires
        bucket_thresholds(buckets).no_duplicates(),
        rank_buckets(buckets, table) is Some,
    ensures
        sort_ranked(rank_buckets(buckets, table)->Some_0).len() == buckets.len(),
        is_sorted(sort_ranked(rank_buckets(buckets, table)->Some_0)),
        ranked_thresholds(sort_ranked(rank_buckets(buckets, table)->Some_0)).no_duplicates(),
        forall|j: int|
            0 <= j < buckets.len() ==> {
                let b = #[trigger] sort_ranked(rank_buckets(buckets, table)->Some_0)[j];
                &&& bucket_thresholds(buckets).contains(b.le)
                &&& b.terms == terms_of(buckets, b.le)
                &&& threshold_of(table, b.le) == Some(b.bits)
            },
        forall|m: int|
            0 <= m < buckets.len() ==> ranked_thresholds(
                sort_ranked(rank_buckets(buckets, table)->Some_0),
            ).contains(#[trigger] bucket_thresholds(buckets)[m]),
{
    let ranked = rank_buckets(buckets, table)->Some_0;
    let sorted = sort_ranked(ranked);
    let les = bucket_thresholds(buckets);
    lemma_ranked_are_buckets(buckets, table);
    lemma_sort_ranked_keeps_buckets(ranked);
    lemma_sort_ranked_sorts(ranked);
    assert forall|j: int| 0 <= j < buckets.len() implies {
        let b = #[trigger] sorted[j];
        &&& les.contains(b.le)
        &&& b.terms == terms_of(buckets, b.le)
        &&& threshold_of(table, b.le) == Some(b.bits)
    } by {
        let b = sorted[j];
        assert(sorted.contains(b));
        assert(ranked.contains(b));
        let m = choose|m: int| 0 <= m < ranked.len() && ranked[m] == b;
        assert(les[m] == b.le);
        lemma_first_place(les, b.le);
        let q = first_place(les, b.le)->Some_0;
        assert(q == m);
    }
    assert forall|m: int| 0 <= m < buckets.len() implies ranked_thresholds(sorted).contains(
        #[trigger] les[m],
    ) by {
        assert(ranked.contains(ranked[m]));
        assert(sorted.contains(ranked[m]));
        let j = choose|j: int| 0 <= j < sorted.len() && sorted[j] == ranked[m];
        assert(ranked_thresholds(sorted)[j] == les[m]);
    }
}

/// The buckets of a group come in one order of thresholds, whichever way
/// they were gathered: two runs of buckets with the same thresholds, to which
/// the table gives numbers that differ, are sorted to the same run of
/// thresholds.
pub proof fn lemma_sorted_buckets_align(
    first: Seq<BucketView>,
    second: Seq<BucketView>,
    table: Seq<ThresholdView>,
)
    requires
        bucket_thresholds(first).no_duplicates(),
        bucket_thresholds(second).no_duplicates(),
        forall|le: Seq<char>| #[trigger]
            bucket_thresholds(first).contains(le) ==> bucket_thresholds(second).contains(le),
        forall|le: Seq<char>| #[trigger]
            bucket_thresholds(second).contains(le) ==> bucket_thresholds(first).contains(le),
        rank_buckets(first, table) is Some,
        rank_buckets(second, table) is Some,
        thresholds_apart(table, bucket_thresholds(first)),
    ensures
        ranked_thresholds(sort_ranked(rank_buckets(first, table)->Some_0)) == ranked_thresholds(
            sort_ranked(rank_buckets(second, table)->Some_0),
        ),
{
    reveal(thresholds_apart);
    let x = sort_ranked(rank_buckets(first, table)->Some_0);
    let y = sort_ranked(rank_buckets(second, table)->Some_0);
    let les = bucket_thresholds(first);
    lemma_sorted_buckets(first, table);
    lemma_sorted_buckets(second, table);
    let px = places_of(x);
    let py = places_of(y);
    assert forall|i: int, j: int| 0 <= i < j < px.len() implies px[i] < px[j] by {
        assert(total_place(x[i].bits) <= total_place(x[j].bits));
        assert(ranked_thresholds(x)[i] != ranked_thresholds(x)[j]);
        assert(les.contains(x[i].le));
        assert(les.contains(x[j].le));
        let a = choose|a: int| 0 <= a < les.len() && les[a] == x[i].le;
        let b = choose|b: int| 0 <= b < les.len() && les[b] == x[j].le;
        assert(threshold_of(table, les[a]) == Some(x[i].bits));
        assert(threshold_of(table, les[b]) == Some(x[j].bits));
    }
    assert forall|i: int, j: int| 0 <= i < j < py.len() implies py[i] < py[j] by {
        assert(total_place(y[i].bits) <= total_place(y[j].bits));
        assert(ranked_thresholds(y)[i] != ranked_thresholds(y)[j]);
        assert(bucket_thresholds(second).contains(y[i].le));
        assert(bucket_thresholds(second).contains(y[j].le));
        assert(les.contains(y[i].le));
        assert(les.contains(y[j].le));
        let a = choose|a: int| 0 <= a < les.len() && les[a] == y[i].le;
        let b = choose|b: int| 0 <= b < les.len() && les[b] == y[j].le;
        assert(threshold_of(table, les[a]) == Some(y[i].bits));
        assert(threshold_of(table, les[b]) == Some(y[j].bits));
    }
    assert forall|v: int| px.contains(v) <==> py.contains(v) by {
        if px.contains(v) {
            let j = choose|j: int| 0 <= j < px.len() && px[j] == v;
            let le = x[j].le;
            assert(les.contains(le));
            assert(bucket_thresholds(second).contains(le));
            let m = choose|m: int|
                0 <= m < second.len() && bucket_thresholds(second)[m] == le;
            assert(ranked_thresholds(y).contains(bucket_thresholds(second)[m]));
            let k = choose|k: int| 0 <= k < y.len() && ranked_thresholds(y)[k] == le;
            assert(y[k].le == le);
            assert(threshold_of(table, le) == Some(y[k].bits));
            assert(py[k] == v);
        }
        if py.contains(v) {
            let j = choose|j: int| 0 <= j < py.len() && py[j] == v;
            let le = y[j].le;
            assert(bucket_thresholds(second).contains(le));
            assert(les.contains(le));
            let m = choose|m: int| 0 <= m < first.len() && les[m] == le;
            assert(ranked_thresholds(x).contains(les[m]));
            let k = choose|k: int| 0 <= k < x.len() && ranked_thresholds(x)[k] == le;
            assert(x[k].le == le);
            assert(threshold_of(table, le) == Some(x[k].bits));
            assert(px[k] == v);
        }
    }
    lemma_rising_runs_are_equal(px, py);
    assert(x.len() == y.len());
    assert forall|j: int| 0 <= j < x.len() implies ranked_thresholds(x)[j] == ranked_thresholds(
        y,
    )[j] by {
        assert(px[j] == py[j]);
        assert(les.contains(x[j].le));
        assert(bucket_thresholds(second).contains(y[j].le));
        assert(les.contains(y[j].le));
        let a = choose|a: int| 0 <= a < les.len() && les[a] == x[j].le;
        let b = choose|b: int| 0 <= b < les.len() && les[b] == y[j].le;
        assert(threshold_of(table, les[a]) == Some(x[j].bits));
        assert(threshold_of(table, les[b]) == Some(y[j].bits));
    }
    assert(ranked_thresholds(x) =~= ranked_thresholds(y));
}

/// The thresholds of two runs of samples, one behind the other, are those of
/// the first and behind them those of the second.
pub proof fn lemma_sample_thresholds_concat(a: Seq<SampleView>, b: Seq<SampleView>)
    ensures
        sample_thresholds(a + b) == sample_thresholds(a) + sample_thresholds(b),
    decreases b.len(),
{
    if b.len() == 0 {
        assert(a + b =~= a);
        assert(sample_thresholds(a) + sample_thresholds(b) =~= sample_thresholds(a));
    } else {
        assert((a + b).drop_last() =~= a + b.drop_last());
        lemma_sample_thresholds_concat(a, b.drop_last());
        let ta = sample_thresholds(a);
        let tb = sample_thresholds(b.drop_last());
        if b.last().labels.contains_key("le"@) {
            assert((ta + tb).push(b.last().labels["le"@]) =~= ta + tb.push(b.last().labels["le"@]));
        }
    }
}

/// What holds of thresholds taken in one order holds of them in the other.
proof fn lemma_swapped_thresholds(table: Seq<ThresholdView>, x: Seq<Seq<char>>, y: Seq<Seq<char>>)
    requires
        knows_all(table, x + y),
        thresholds_apart(table, x + y),
    ensures
        knows_all(table, y + x),
        thresholds_apart(table, y + x),
{
    reveal(thresholds_apart);
    let u = x + y;
    let v = y + x;
    assert forall|k: int| 0 <= k < v.len() implies threshold_of(table, #[trigger] v[k])
        is Some by {
        let m = if k < y.len() { k + x.len() } else { k - y.len() };
        assert(v[k] == u[m]);
    }
    assert forall|i: int, j: int|
        0 <= i < v.len() && 0 <= j < v.len() && v[i] != v[j] implies total_place(
        threshold_of(table, #[trigger] v[i])->Some_0,
    ) != total_place(threshold_of(table, #[trigger] v[j])->Some_0) by {
        let m = if i < y.len() { i + x.len() } else { i - y.len() };
        let n = if j < y.len() { j + x.len() } else { j - y.len() };
        assert(v[i] == u[m]);
        assert(v[j] == u[n]);
    }
}

/// Where the table gives a number for each threshold of the samples, the
/// groups of their fold can be finished.
pub proof fn lemma_fold_has_sound_groups(
    policy: Policy,
    samples: Seq<SampleView>,
    table: Seq<ThresholdView>,
)
    requires
        knows_all(table, sample_thresholds(samples)),
    ensures
        sound_groups(accumulate(policy, samples).groups, table),
{
    let groups = accumulate(policy, samples).groups;
    let texts = sample_thresholds(samples);
    lemma_fold_is_well_grouped(policy, samples);
    assert forall|i: int| 0 <= i < groups.len() implies rank_buckets(
        (#[trigger] groups[i]).buckets,
        table,
    ) is Some && ranked_thresholds(sorted_of(groups[i], table)).no_duplicates() by {
        let buckets = groups[i].buckets;
        lemma_rank_buckets_needs(buckets, table);
        assert forall|j: int| 0 <= j < buckets.len() implies threshold_of(
            table,
            (#[trigger] buckets[j]).le,
        ) is Some by {
            let le = buckets[j].le;
            assert(holds_threshold(buckets, le));
            assert(has_threshold(groups, le));
            lemma_buckets_are_of_samples(policy, samples, le);
            let k = choose|k: int| 0 <= k < texts.len() && texts[k] == le;
            assert(threshold_of(table, texts[k]) is Some);
        }
        lemma_sorted_buckets(buckets, table);
    }
}

/// Where the table gives numbers that differ for the thresholds of the
/// samples that differ, it does so for the thresholds of each group.
pub proof fn lemma_group_thresholds_apart(
    policy: Policy,
    samples: Seq<SampleView>,
    table: Seq<ThresholdView>,
    labels: Map<Seq<char>, Seq<char>>,
)
    requires
        thresholds_apart(table, sample_thresholds(samples)),
    ensures
        thresholds_apart(
            table,
            bucket_thresholds(buckets_of(accumulate(policy, samples).groups, labels)),
        ),
{
    reveal(thresholds_apart);
    let groups = accumulate(policy, samples).groups;
    let buckets = buckets_of(groups, labels);
    let les = bucket_thresholds(buckets);
    let texts = sample_thresholds(samples);
    lemma_first_place(group_labels(groups), labels);
    assert forall|i: int, j: int|
        0 <= i < les.len() && 0 <= j < les.len() && les[i] != les[j] implies total_place(
        threshold_of(table, #[trigger] les[i])->Some_0,
    ) != total_place(threshold_of(table, #[trigger] les[j])->Some_0) by {
        let at = first_place(group_labels(groups), labels)->Some_0;
        assert(groups[at].buckets == buckets);
        assert(buckets[i].le == les[i]);
        assert(buckets[j].le == les[j]);
        assert(holds_threshold(buckets, les[i]));
        assert(holds_threshold(buckets, les[j]));
        assert(has_threshold(groups, les[i]));
        assert(has_threshold(groups, les[j]));
        lemma_buckets_are_of_samples(policy, samples, les[i]);
        lemma_buckets_are_of_samples(policy, samples, les[j]);
        let m = choose|m: int| 0 <= m < texts.len() && texts[m] == les[i];
        let n = choose|n: int| 0 <= n < texts.len() && texts[n] == les[j];
        assert(total_place(threshold_of(table, texts[m])->Some_0) != total_place(
            threshold_of(table, texts[n])->Some_0,
        ));
    }
}

/// The sums of the first buckets of two runs of sorted buckets are the same,
/// their terms in another order at most, where the buckets are, one by one.
pub proof fn lemma_cumulative_same_terms(x: Seq<RankedView>, y: Seq<RankedView>, count: int)
    requires
        0 <= count <= x.len(),
        x.len() == y.len(),
        forall|j: int|
            0 <= j < x.len() ==> (#[trigger] x[j]).terms.to_multiset() == y[j].terms.to_multiset(),
    ensures
        same_terms(cumulative(x, count), cumulative(y, count)),
{
    let u = cumulative(x, count);
    let v = cumulative(y, count);
    assert forall|i: int| 0 <= i < u.len() implies (#[trigger] u[i]).to_multiset()
        == v[i].to_multiset() by {
        if i > 0 {
            assert(u[i] == x[i - 1].terms);
            assert(v[i] == y[i - 1].terms);
        }
    }
}

/// A group gives the same samples, the terms of their sums in another order
/// at most, whichever way its buckets were gathered, where they are sorted to
/// the same run of thresholds and are the same, one by one.
pub proof fn lemma_group_samples_align(
    name: Seq<char>,
    labels: Map<Seq<char>, Seq<char>>,
    x: Seq<RankedView>,
    y: Seq<RankedView>,
    key: SeriesKey,
)
    requires
        ranked_thresholds(x) == ranked_thresholds(y),
        forall|j: int|
            0 <= j < x.len() ==> (#[trigger] x[j]).terms.to_multiset() == y[j].terms.to_multiset(),
    ensures
        same_sample(group_sample(name, labels, x, key), group_sample(name, labels, y, key)),
{
    assert(x.len() == ranked_thresholds(x).len());
    assert(y.len() == ranked_thresholds(y).len());
    assert(x.take(x.len() as int) =~= x);
    assert(y.take(y.len() as int) =~= y);
    if key == count_key(name, labels) {
        lemma_cumulative_same_terms(x, y, x.len() as int);
    } else {
        match bucket_for(name, labels, x, x.len() as int, key) {
            Some(j) => {
                lemma_first_place(ranked_thresholds(x), key.labels["le"@]);
                assert(ranked_thresholds(x)[j] == x[j].le);
                assert(ranked_thresholds(y)[j] == y[j].le);
                lemma_cumulative_same_terms(x, y, j + 1);
            },
            None => {},
        }
    }
}

/// A group has buckets in one fold of two runs of samples where it has
/// buckets in the fold of the runs in the other order, and then the buckets
/// have the same thresholds.
proof fn lemma_groups_exist_together(
    policy: Policy,
    a: Seq<SampleView>,
    b: Seq<SampleView>,
    labels: Map<Seq<char>, Seq<char>>,
)
    ensures
        first_place(group_labels(accumulate(policy, a + b).groups), labels) is Some
            ==> first_place(group_labels(accumulate(policy, b + a).groups), labels) is Some,
        forall|le: Seq<char>| #[trigger]
            bucket_thresholds(buckets_of(accumulate(policy, a + b).groups, labels)).contains(le)
                ==> bucket_thresholds(buckets_of(accumulate(policy, b + a).groups, labels)).contains(
                le,
            ),
{
    let g1 = accumulate(policy, a + b).groups;
    let g2 = accumulate(policy, b + a).groups;
    let b1 = buckets_of(g1, labels);
    let b2 = buckets_of(g2, labels);
    lemma_fold_is_well_grouped(policy, a + b);
    lemma_fold_is_well_grouped(policy, b + a);
    assert forall|le: Seq<char>| #[trigger]
        bucket_thresholds(b1).contains(le) implies bucket_thresholds(b2).contains(le) by {
        lemma_buckets_ignore_order(policy, a, b, labels, le);
        lemma_first_place(bucket_thresholds(b1), le);
        lemma_first_place(bucket_thresholds(b2), le);
        let j = first_place(bucket_thresholds(b2), le)->Some_0;
        assert(bucket_thresholds(b2)[j] == le);
    }
    lemma_first_place(group_labels(g1), labels);
    lemma_first_place(group_labels(g2), labels);
    if first_place(group_labels(g1), labels) is Some {
        let i = first_place(group_labels(g1), labels)->Some_0;
        assert(g1[i].buckets == b1);
        assert(bucket_thresholds(b1)[0] == b1[0].le);
        assert(bucket_thresholds(b1).contains(b1[0].le));
        assert(bucket_thresholds(b2).contains(b1[0].le));
    }
}

/// The groups give the same samples, the terms of their sums in another
/// order at most, whichever of two runs of samples is taken first, where the
/// table gives numbers, which differ, for the thresholds that differ.
pub proof fn lemma_groups_samples_ignore_order(
    policy: Policy,
    a: Seq<SampleView>,
    b: Seq<SampleView>,
    table: Seq<ThresholdView>,
    name: Seq<char>,
    key: SeriesKey,
)
    requires
        knows_all(table, sample_thresholds(a + b)),
        thresholds_apart(table, sample_thresholds(a + b)),
    ensures
        same_sample(
            groups_sample(name, accumulate(policy, a + b).groups, table, key),
            groups_sample(name, accumulate(policy, b + a).groups, table, key),
        ),
{
    let labels = owner(key);
    let g1 = accumulate(policy, a + b).groups;
    let g2 = accumulate(policy, b + a).groups;
    let b1 = buckets_of(g1, labels);
    let b2 = buckets_of(g2, labels);
    lemma_sample_thresholds_concat(a, b);
    lemma_sample_thresholds_concat(b, a);
    lemma_swapped_thresholds(table, sample_thresholds(a), sample_thresholds(b));
    lemma_fold_is_well_grouped(policy, a + b);
    lemma_fold_is_well_grouped(policy, b + a);
    lemma_fold_has_sound_groups(policy, a + b, table);
    lemma_fold_has_sound_groups(policy, b + a, table);
    lemma_groups_exist_together(policy, a, b, labels);
    lemma_groups_exist_together(policy, b, a, labels);
    lemma_first_place(group_labels(g1), labels);
    lemma_first_place(group_labels(g2), labels);
    if first_place(group_labels(g1), labels) is Some {
        let i1 = first_place(group_labels(g1), labels)->Some_0;
        let i2 = first_place(group_labels(g2), labels)->Some_0;
        assert(g1[i1].buckets == b1 && g1[i1].labels == labels);
        assert(g2[i2].buckets == b2 && g2[i2].labels == labels);
        lemma_group_thresholds_apart(policy, a + b, table, labels);
        lemma_sorted_buckets_align(b1, b2, table);
        lemma_sorted_buckets(b1, table);
        lemma_sorted_buckets(b2, table);
        let x = sorted_of(g1[i1], table);
        let y = sorted_of(g2[i2], table);
        assert forall|j: int| 0 <= j < x.len() implies (#[trigger] x[j]).terms.to_multiset()
            == y[j].terms.to_multiset() by {
            assert(ranked_thresholds(x)[j] == x[j].le);
            assert(ranked_thresholds(y)[j] == y[j].le);
            lemma_buckets_ignore_order(policy, a, b, labels, x[j].le);
        }
        lemma_group_samples_align(name, labels, x, y, key);
    }
}

/// The merged samples of a histogram do not depend on which of two runs of
/// its samples is taken first: each series has the same sample, the terms of
/// its sum in another order at most.
///
/// The table is to give a number for each threshold of the samples, and
/// numbers that differ for thresholds that differ.
pub proof fn lemma_histogram_ignores_order(
    first: MetricView,
    second: MetricView,
    a: Seq<SampleView>,
    b: Seq<SampleView>,
    table: Seq<ThresholdView>,
    key: SeriesKey,
)
    requires
        first.name == second.name,
        first.typ == second.typ,
        first.mode == second.mode,
        first.samples == a + b,
        second.samples == b + a,
        spec_policy(first.typ, first.mode) is Histogram,
        knows_all(table, sample_thresholds(a + b)),
        thresholds_apart(table, sample_thresholds(a + b)),
    ensures
        merged_samples(first, table) is Some,
        merged_samples(second, table) is Some,
        same_sample(
            merged_sample_of(merged_samples(first, table)->Some_0, key),
            merged_sample_of(merged_samples(second, table)->Some_0, key),
        ),
{
    reveal(merged_samples);
    let policy = spec_policy(first.typ, first.mode);
    let x = accumulate(policy, a + b);
    let y = accumulate(policy, b + a);
    lemma_sample_thresholds_concat(a, b);
    lemma_sample_thresholds_concat(b, a);
    lemma_swapped_thresholds(table, sample_thresholds(a), sample_thresholds(b));
    lemma_fold_has_sound_groups(policy, a + b, table);
    lemma_fold_has_sound_groups(policy, b + a, table);
    lemma_sample_after_groups(
        plain_samples(x.series),
        first.name,
        x.groups,
        table,
        x.groups.len() as int,
        key,
    );
    lemma_sample_after_groups(
        plain_samples(y.series),
        first.name,
        y.groups,
        table,
        y.groups.len() as int,
        key,
    );
    assert(x.groups.take(x.groups.len() as int) =~= x.groups);
    assert(y.groups.take(y.groups.len() as int) =~= y.groups);
    lemma_groups_samples_ignore_order(policy, a, b, table, first.name, key);
    assert(order_free(policy, a, b, key)) by {
        reveal(order_free);
    }
    lemma_plain_samples_ignore_order(policy, a, b, key);
}

} // verus!
