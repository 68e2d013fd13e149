//! The buckets of a histogram, made cumulative.
//!
//! The buckets that share their labels are put in the order of their
//! thresholds, as numbers. The sample of a bucket is then the sum of the bucket
//! and of all buckets before it, and one more sample, the count, is the sum of
//! them all. The thresholds are labels, so their numbers come from a table
//! that gives, for the text of a threshold, the bit pattern of its number.

use crate::aggregate::{Bucket, BucketView, Group, GroupView, SeriesKey};
use crate::binary64::{total_le, total_place, ZERO};
use crate::lookup::{first_place, lemma_first_place_found};
use crate::metric::{merged_samples_view, terms_view, MergedSample, MergedSampleView};
use crate::error::{fails_with, Corruption, MergeError};
use crate::text::str_eq;
use vstd::prelude::*;
use vstd::string::StringExecFns;

verus! {

/// The number of a threshold: the text of the label and the bit pattern of
/// the number that the text stands for.
#[derive(Debug)]
pub struct Threshold {
    pub text: String,
    pub bits: u64,
}

/// What a threshold holds.
pub struct ThresholdView {
    pub text: Seq<char>,
    pub bits: u64,
}

impl View for Threshold {
    type V = ThresholdView;

    open spec fn view(&self) -> ThresholdView {
        ThresholdView { text: self.text@, bits: self.bits }
    }
}

/// What a table of thresholds holds.
pub open spec fn thresholds_view(table: Seq<Threshold>) -> Seq<ThresholdView> {
    table.map_values(|t: Threshold| t@)
}

/// The texts of a table of thresholds.
pub open spec fn threshold_texts(table: Seq<ThresholdView>) -> Seq<Seq<char>> {
    table.map_values(|t: ThresholdView| t.text)
}

/// The number that the table gives for the text: that of the first entry with
/// the text.
#[verifier::opaque]
pub open spec fn threshold_of(table: Seq<ThresholdView>, text: Seq<char>) -> Option<u64> {
    match first_place(threshold_texts(table), text) {
        Some(i) => Some(table[i].bits),
        None => None,
    }
}

/// A bucket with the number of its threshold.
pub struct RankedView {
    pub le: Seq<char>,
    pub terms: Seq<u64>,
    pub bits: u64,
}

/// The buckets with the numbers of their thresholds, and none where the table
/// lacks one of the thresholds.
pub open spec fn rank_buckets(buckets: Seq<BucketView>, table: Seq<ThresholdView>) -> Option<
    Seq<RankedView>,
>
    decreases buckets.len(),
{
    if buckets.len() == 0 {
        Some(Seq::empty())
    } else {
        match (
            rank_buckets(buckets.drop_last(), table),
            threshold_of(table, buckets.last().le),
        ) {
            (Some(ranked), Some(bits)) => Some(
                ranked.push(RankedView { le: buckets.last().le, terms: buckets.last().terms, bits }),
            ),
            _ => None,
        }
    }
}

/// The sorted buckets with one more: it stands behind the buckets whose
/// threshold is not greater than its own.
pub open spec fn insert_ranked(sorted: Seq<RankedView>, bucket: RankedView) -> Seq<RankedView>
    decreases sorted.len(),
{
    if sorted.len() == 0 || total_place(sorted.last().bits) <= total_place(bucket.bits) {
        sorted.push(bucket)
    } else {
        insert_ranked(sorted.drop_last(), bucket).push(sorted.last())
    }
}

/// The buckets in the order of their thresholds; buckets of one threshold
/// keep their order.
pub open spec fn sort_ranked(buckets: Seq<RankedView>) -> Seq<RankedView>
    decreases buckets.len(),
{
    if buckets.len() == 0 {
        Seq::empty()
    } else {
        insert_ranked(sort_ranked(buckets.drop_last()), buckets.last())
    }
}

/// Whether the thresholds do not fall from one bucket to the next.
pub open spec fn is_sorted(buckets: Seq<RankedView>) -> bool {
    forall|i: int, j: int|
        0 <= i <= j < buckets.len() ==> total_place((#[trigger] buckets[i]).bits) <= total_place(
            (#[trigger] buckets[j]).bits,
        )
}

/// The sum of the first `count` buckets: zero, to which the sum of each of the
/// buckets is added in turn.
pub open spec fn cumulative(sorted: Seq<RankedView>, count: int) -> Seq<Seq<u64>> {
    seq![seq![ZERO]] + sorted.take(count).map_values(|b: RankedView| b.terms)
}

/// The series that a merged sample is of.
pub open spec fn sample_key(sample: MergedSampleView) -> SeriesKey {
    SeriesKey { name: sample.name, labels: sample.labels }
}

/// The series of a list of merged samples.
pub open spec fn sample_keys(samples: Seq<MergedSampleView>) -> Seq<SeriesKey> {
    samples.map_values(|s: MergedSampleView| sample_key(s))
}

/// The samples with one more: it takes the place of the first sample of its
/// series, or stands behind the others.
pub open spec fn put(samples: Seq<MergedSampleView>, sample: MergedSampleView) -> Seq<
    MergedSampleView,
> {
    match first_place(sample_keys(samples), sample_key(sample)) {
        Some(i) => samples.update(i, sample),
        None => samples.push(sample),
    }
}

/// The sample of the bucket at `at`: its name is that of the metric with
/// `_bucket` behind it, and the threshold is one of its labels.
pub open spec fn bucket_sample(
    name: Seq<char>,
    labels: Map<Seq<char>, Seq<char>>,
    sorted: Seq<RankedView>,
    at: int,
) -> MergedSampleView {
    MergedSampleView {
        name: name + "_bucket"@,
        labels: labels.insert("le"@, sorted[at].le),
        timestamp: ZERO,
        value: cumulative(sorted, at + 1),
    }
}

/// The sample of the count of a group: its name is that of the metric with
/// `_count` behind it.
pub open spec fn count_sample(
    name: Seq<char>,
    labels: Map<Seq<char>, Seq<char>>,
    sorted: Seq<RankedView>,
) -> MergedSampleView {
    MergedSampleView {
        name: name + "_count"@,
        labels,
        timestamp: ZERO,
        value: cumulative(sorted, sorted.len() as int),
    }
}

/// The samples with those of the first `count` buckets put in.
pub open spec fn put_buckets(
    samples: Seq<MergedSampleView>,
    name: Seq<char>,
    labels: Map<Seq<char>, Seq<char>>,
    sorted: Seq<RankedView>,
    count: int,
) -> Seq<MergedSampleView>
    decreases count,
{
    if count <= 0 {
        samples
    } else {
        put(
            put_buckets(samples, name, labels, sorted, count - 1),
            bucket_sample(name, labels, sorted, count - 1),
        )
    }
}

/// The samples with those of a group put in: its buckets in the order of
/// their thresholds, then its count. None where the table lacks a threshold.
#[verifier::opaque]
pub open spec fn finish_group(
    samples: Seq<MergedSampleView>,
    name: Seq<char>,
    group: GroupView,
    table: Seq<ThresholdView>,
) -> Option<Seq<MergedSampleView>> {
    match rank_buckets(group.buckets, table) {
        Some(ranked) => {
            let sorted = sort_ranked(ranked);
            Some(
                put(
                    put_buckets(samples, name, group.labels, sorted, sorted.len() as int),
                    count_sample(name, group.labels, sorted),
                ),
            )
        },
        None => None,
    }
}

/// The samples with those of the first `count` groups put in, group by group.
pub open spec fn finish_groups(
    samples: Seq<MergedSampleView>,
    name: Seq<char>,
    groups: Seq<GroupView>,
    table: Seq<ThresholdView>,
    count: int,
) -> Option<Seq<MergedSampleView>>
    decreases count,
{
    if count <= 0 {
        Some(samples)
    } else {
        match finish_groups(samples, name, groups, table, count - 1) {
            Some(so_far) => finish_group(so_far, name, groups[count - 1], table),
            None => None,
        }
    }
}

/// Once a group cannot be finished, no longer run of groups can.
pub proof fn lemma_finish_groups_fails_on(
    samples: Seq<MergedSampleView>,
    name: Seq<char>,
    groups: Seq<GroupView>,
    table: Seq<ThresholdView>,
    failed: int,
    count: int,
)
    requires
        0 <= failed <= count,
        finish_groups(samples, name, groups, table, failed) is None,
    ensures
        finish_groups(samples, name, groups, table, count) is None,
    decreases count,
{
    if failed < count {
        lemma_finish_groups_fails_on(samples, name, groups, table, failed, count - 1);
    }
}

/// Where a group cannot be finished, no run of groups that holds it can.
pub proof fn lemma_finish_groups_fails_at(
    samples: Seq<MergedSampleView>,
    name: Seq<char>,
    groups: Seq<GroupView>,
    table: Seq<ThresholdView>,
    at: int,
    count: int,
)
    requires
        0 <= at < count,
        match finish_groups(samples, name, groups, table, at) {
            Some(so_far) => finish_group(so_far, name, groups[at], table) is None,
            None => true,
        },
    ensures
        finish_groups(samples, name, groups, table, count) is None,
{
    assert(finish_groups(samples, name, groups, table, at + 1) is None);
    lemma_finish_groups_fails_on(samples, name, groups, table, at + 1, count);
}

/// Once a threshold is lacking, no longer run of buckets can be ranked.
pub proof fn lemma_rank_buckets_fails_on(
    buckets: Seq<BucketView>,
    table: Seq<ThresholdView>,
    failed: int,
)
    requires
        0 <= failed <= buckets.len(),
        rank_buckets(buckets.take(failed), table) is None,
    ensures
        rank_buckets(buckets, table) is None,
    decreases buckets.len(),
{
    if failed < buckets.len() {
        assert(buckets.drop_last().take(failed) =~= buckets.take(failed));
        lemma_rank_buckets_fails_on(buckets.drop_last(), table, failed);
    } else {
        assert(buckets.take(failed) =~= buckets);
    }
}

/// The buckets are cumulative: the sum of each is that of the bucket before
/// it and the values of its own, and the count is the sum of the last bucket.
pub proof fn lemma_buckets_are_cumulative(
    name: Seq<char>,
    labels: Map<Seq<char>, Seq<char>>,
    sorted: Seq<RankedView>,
    at: int,
)
    requires
        0 <= at < sorted.len(),
    ensures
        bucket_sample(name, labels, sorted, at).value == cumulative(sorted, at).push(
            sorted[at].terms,
        ),
        at > 0 ==> bucket_sample(name, labels, sorted, at).value == bucket_sample(
            name,
            labels,
            sorted,
            at - 1,
        ).value.push(sorted[at].terms),
        at == sorted.len() - 1 ==> count_sample(name, labels, sorted).value == bucket_sample(
            name,
            labels,
            sorted,
            at,
        ).value,
{
    assert(sorted.take(at + 1).map_values(|b: RankedView| b.terms) =~= sorted.take(
        at,
    ).map_values(|b: RankedView| b.terms).push(sorted[at].terms));
    assert(cumulative(sorted, at + 1) =~= cumulative(sorted, at).push(sorted[at].terms));
}

/// Putting a bucket into sorted buckets leaves them sorted.
pub proof fn lemma_insert_ranked_sorted(sorted: Seq<RankedView>, bucket: RankedView)
    requires
        is_sorted(sorted),
    ensures
        is_sorted(insert_ranked(sorted, bucket)),
        insert_ranked(sorted, bucket).len() == sorted.len() + 1,
        insert_ranked(sorted, bucket).to_multiset() == sorted.to_multiset().insert(bucket),
        forall|i: int|
            0 <= i < sorted.len() + 1 ==> (#[trigger] insert_ranked(sorted, bucket)[i]) == bucket || (
            exists|j: int| 0 <= j < sorted.len() && sorted[j] == insert_ranked(sorted, bucket)[i]),
    decreases sorted.len(),
{
    broadcast use vstd::seq_lib::group_to_multiset_ensures;

    let out = insert_ranked(sorted, bucket);
    if sorted.len() == 0 || total_place(sorted.last().bits) <= total_place(bucket.bits) {
        assert forall|i: int, j: int| 0 <= i <= j < out.len() implies total_place(
            (#[trigger] out[i]).bits,
        ) <= total_place((#[trigger] out[j]).bits) by {
            if j < sorted.len() {
                assert(out[i] == sorted[i] && out[j] == sorted[j]);
            } else if i < sorted.len() {
                assert(out[i] == sorted[i]);
                assert(sorted.last() == sorted[sorted.len() - 1]);
            }
        }
        assert forall|i: int| 0 <= i < sorted.len() + 1 implies (#[trigger] out[i]) == bucket || (
        exists|j: int| 0 <= j < sorted.len() && sorted[j] == out[i]) by {
            if i < sorted.len() {
                assert(sorted[i] == out[i]);
            }
        }
    } else {
        let front = sorted.drop_last();
        let inner = insert_ranked(front, bucket);
        assert(is_sorted(front)) by {
            assert forall|i: int, j: int| 0 <= i <= j < front.len() implies total_place(
                (#[trigger] front[i]).bits,
            ) <= total_place((#[trigger] front[j]).bits) by {
                assert(front[i] == sorted[i] && front[j] == sorted[j]);
            }
        }
        lemma_insert_ranked_sorted(front, bucket);
        assert forall|i: int, j: int| 0 <= i <= j < out.len() implies total_place(
            (#[trigger] out[i]).bits,
        ) <= total_place((#[trigger] out[j]).bits) by {
            if j < inner.len() {
                assert(out[i] == inner[i] && out[j] == inner[j]);
            } else if i < inner.len() {
                assert(out[i] == inner[i]);
                assert(out[j] == sorted.last());
                if inner[i] != bucket {
                    let k = choose|k: int| 0 <= k < front.len() && front[k] == inner[i];
                    assert(front[k] == sorted[k]);
                    assert(sorted.last() == sorted[sorted.len() - 1]);
                }
            }
        }
        assert forall|i: int| 0 <= i < sorted.len() + 1 implies (#[trigger] out[i]) == bucket || (
        exists|j: int| 0 <= j < sorted.len() && sorted[j] == out[i]) by {
            if i < inner.len() {
                assert(out[i] == inner[i]);
                if inner[i] != bucket {
                    let k = choose|k: int| 0 <= k < front.len() && front[k] == inner[i];
                    assert(front[k] == sorted[k]);
                }
            } else {
                assert(out[i] == sorted[sorted.len() - 1]);
            }
        }
        assert(sorted =~= front.push(sorted.last()));
    }
}

/// The buckets in the order of their thresholds are sorted, and are the
/// buckets that were given, each as often as it was given.
pub proof fn lemma_sort_ranked_sorts(buckets: Seq<RankedView>)
    ensures
        is_sorted(sort_ranked(buckets)),
        sort_ranked(buckets).len() == buckets.len(),
        sort_ranked(buckets).to_multiset() == buckets.to_multiset(),
    decreases buckets.len(),
{
    broadcast use vstd::seq_lib::group_to_multiset_ensures;

    if buckets.len() == 0 {
        assert(buckets =~= Seq::empty());
    } else {
        lemma_sort_ranked_sorts(buckets.drop_last());
        lemma_insert_ranked_sorted(sort_ranked(buckets.drop_last()), buckets.last());
        assert(buckets =~= buckets.drop_last().push(buckets.last()));
    }
}

/// The number that the table gives for the text.
pub fn find_threshold(table: &Vec<Threshold>, text: &str) -> (r: Option<u64>)
    ensures
        r == threshold_of(thresholds_view(table@), text@),
{
    let ghost texts = threshold_texts(thresholds_view(table@));
    proof {
        reveal(threshold_of);
    }
    let mut i: usize = 0;
    while i < table.len()
        invariant
            i <= table.len(),
            texts == threshold_texts(thresholds_view(table@)),
            forall|j: int| 0 <= j < i ==> texts[j] != text@,
        decreases table.len() - i,
    {
        proof {
            reveal(threshold_of);
        }
        assert(texts[i as int] == table@[i as int]@.text);
        if str_eq(table[i].text.as_str(), text) {
            proof {
                lemma_first_place_found(texts, text@, i as int);
            }
            return Some(table[i].bits);
        }
        i += 1;
    }
    None
}

struct Ranked {
    le: String,
    terms: Vec<u64>,
    bits: u64,
}

impl View for Ranked {
    type V = RankedView;

    closed spec fn view(&self) -> RankedView {
        RankedView { le: self.le@, terms: self.terms@, bits: self.bits }
    }
}

spec fn ranked_views(buckets: Seq<Ranked>) -> Seq<RankedView> {
    buckets.map_values(|b: Ranked| b@)
}

/// A copy of the numbers.
fn copy_terms(terms: &Vec<u64>) -> (r: Vec<u64>)
    ensures
        r@ == terms@,
{
    let mut r: Vec<u64> = Vec::new();
    let mut i: usize = 0;
    while i < terms.len()
        invariant
            i <= terms.len(),
            r@ == terms@.take(i as int),
        decreases terms.len() - i,
    {
        r.push(terms[i]);
        assert(r@ =~= terms@.take(i + 1));
        i += 1;
    }
    assert(terms@.take(i as int) =~= terms@);
    r
}

/// The place at which a bucket goes into sorted buckets is behind the last
/// bucket whose threshold is not greater.
proof fn lemma_insert_ranked_at(sorted: Seq<RankedView>, bucket: RankedView, p: int)
    requires
        0 <= p <= sorted.len(),
        p == 0 || total_place(sorted[p - 1].bits) <= total_place(bucket.bits),
        forall|k: int|
            p <= k < sorted.len() ==> total_place((#[trigger] sorted[k]).bits) > total_place(
                bucket.bits,
            ),
    ensures
        insert_ranked(sorted, bucket) == sorted.insert(p, bucket),
    decreases sorted.len(),
{
    if sorted.len() == 0 {
        assert(sorted.push(bucket) =~= sorted.insert(p, bucket));
    } else if total_place(sorted.last().bits) <= total_place(bucket.bits) {
        if p < sorted.len() {
            assert(total_place(sorted[sorted.len() - 1].bits) > total_place(bucket.bits));
        }
        assert(sorted.push(bucket) =~= sorted.insert(p, bucket));
    } else {
        let front = sorted.drop_last();
        assert(p < sorted.len());
        assert forall|k: int| p <= k < front.len() implies total_place(
            (#[trigger] front[k]).bits,
        ) > total_place(bucket.bits) by {
            assert(front[k] == sorted[k]);
        }
        lemma_insert_ranked_at(front, bucket, p);
        assert(front.insert(p, bucket).push(sorted.last()) =~= sorted.insert(p, bucket));
    }
}

/// Puts a bucket into sorted buckets.
fn insert_sorted(sorted: &mut Vec<Ranked>, bucket: Ranked)
    ensures
        ranked_views(final(sorted)@) == insert_ranked(ranked_views(old(sorted)@), bucket@),
{
    let ghost before = ranked_views(sorted@);
    let mut p: usize = sorted.len();
    while p > 0 && !total_le(sorted[p - 1].bits, bucket.bits)
        invariant
            p <= sorted.len(),
            before == ranked_views(sorted@),
            forall|k: int|
                p <= k < before.len() ==> total_place((#[trigger] before[k]).bits) > total_place(
                    bucket@.bits,
                ),
        decreases p,
    {
        assert(before[p - 1] == sorted@[p - 1]@);
        p -= 1;
    }
    proof {
        if p > 0 {
            assert(before[p - 1] == sorted@[p - 1]@);
        }
        lemma_insert_ranked_at(before, bucket@, p as int);
    }
    sorted.insert(p, bucket);
    assert(ranked_views(sorted@) =~= before.insert(p as int, bucket@));
}

/// The buckets with the numbers of their thresholds, in the order of the
/// thresholds.
fn sort_buckets(buckets: &Vec<Bucket>, table: &Vec<Threshold>) -> (r: Option<Vec<Ranked>>)
    ensures
        match rank_buckets(crate::aggregate::bucket_views(buckets@), thresholds_view(table@)) {
            Some(ranked) => r is Some && ranked_views(r->Some_0@) == sort_ranked(ranked),
            None => r is None,
        },
{
    let ghost views = crate::aggregate::bucket_views(buckets@);
    let ghost tv = thresholds_view(table@);
    let mut sorted: Vec<Ranked> = Vec::new();
    let mut j: usize = 0;
    while j < buckets.len()
        invariant
            j <= buckets.len(),
            views == crate::aggregate::bucket_views(buckets@),
            tv == thresholds_view(table@),
            rank_buckets(views.take(j as int), tv) is Some,
            ranked_views(sorted@) == sort_ranked(rank_buckets(views.take(j as int), tv)->Some_0),
        decreases buckets.len() - j,
    {
        proof {
            assert(views.take(j + 1).drop_last() =~= views.take(j as int));
            assert(views.take(j + 1).last() == buckets@[j as int]@);
        }
        match find_threshold(table, buckets[j].le.as_str()) {
            Some(bits) => {
                let bucket = Ranked {
                    le: buckets[j].le.clone(),
                    terms: copy_terms(&buckets[j].terms),
                    bits,
                };
                proof {
                    let ranked = rank_buckets(views.take(j as int), tv)->Some_0;
                    assert(ranked.push(bucket@).drop_last() =~= ranked);
                }
                insert_sorted(&mut sorted, bucket);
            },
            None => {
                proof {
                    lemma_rank_buckets_fails_on(views, tv, j + 1);
                }
                return None;
            },
        }
        j += 1;
    }
    assert(views.take(j as int) =~= views);
    Some(sorted)
}

/// The sum of the first `count` buckets.
fn cumulative_value(sorted: &Vec<Ranked>, count: usize) -> (value: Vec<Vec<u64>>)
    requires
        count <= sorted.len(),
    ensures
        terms_view(value@) == cumulative(ranked_views(sorted@), count as int),
{
    let ghost views = ranked_views(sorted@);
    let mut value: Vec<Vec<u64>> = Vec::new();
    let mut zero: Vec<u64> = Vec::new();
    zero.push(ZERO);
    value.push(zero);
    assert(terms_view(value@) =~= cumulative(views, 0));
    let mut k: usize = 0;
    while k < count
        invariant
            k <= count <= sorted.len(),
            views == ranked_views(sorted@),
            terms_view(value@) == cumulative(views, k as int),
        decreases count - k,
    {
        let ghost before = terms_view(value@);
        let terms = copy_terms(&sorted[k].terms);
        value.push(terms);
        proof {
            assert(terms_view(value@) =~= before.push(terms@));
            assert(views[k as int] == sorted@[k as int]@);
            assert(views.take(k + 1).map_values(|b: RankedView| b.terms) =~= views.take(
                k as int,
            ).map_values(|b: RankedView| b.terms).push(views[k as int].terms));
            assert(terms_view(value@) =~= cumulative(views, k + 1));
        }
        k += 1;
    }
    value
}

/// Puts a sample in the place of the first sample of its series, or behind
/// the others.
pub fn put_sample(samples: &mut Vec<MergedSample>, sample: MergedSample)
    ensures
        merged_samples_view(final(samples)@) == put(merged_samples_view(old(samples)@), sample@),
{
    let ghost before = merged_samples_view(samples@);
    let ghost keys = sample_keys(before);
    let ghost key = sample_key(sample@);
    let mut i: usize = 0;
    let mut found: Option<usize> = None;
    while i < samples.len() && found.is_none()
        invariant
            i <= samples.len(),
            before == merged_samples_view(samples@),
            keys == sample_keys(before),
            key == sample_key(sample@),
            match found {
                Some(at) => first_place(keys, key) == Some(at as int) && at < samples.len(),
                None => forall|j: int| 0 <= j < i ==> keys[j] != key,
            },
        decreases samples.len() - i + (if found is None { 1int } else { 0int }),
    {
        assert(keys[i as int] == sample_key(samples@[i as int]@));
        if str_eq(samples[i].name.as_str(), sample.name.as_str()) && samples[i].labels.same(
            &sample.labels,
        ) {
            proof {
                lemma_first_place_found(keys, key, i as int);
            }
            found = Some(i);
        } else {
            i += 1;
        }
    }
    match found {
        Some(at) => {
            samples.set(at, sample);
            assert(merged_samples_view(samples@) =~= before.update(at as int, sample@));
        },
        None => {
            samples.push(sample);
            assert(merged_samples_view(samples@) =~= before.push(sample@));
        },
    }
}

/// Puts the samples of a group in: its buckets in the order of their
/// thresholds, then its count.
fn finish_group_into(
    samples: &mut Vec<MergedSample>,
    name: &str,
    group: &Group,
    table: &Vec<Threshold>,
) -> (r: Result<(), MergeError>)
    ensures
        match finish_group(
            merged_samples_view(old(samples)@),
            name@,
            group@,
            thresholds_view(table@),
        ) {
            Some(finished) => r is Ok && merged_samples_view(final(samples)@) == finished,
            None => fails_with(r, Corruption::InvalidThreshold),
        },
{
    let ghost start = merged_samples_view(samples@);
    proof {
        reveal(finish_group);
    }
    let sorted = match sort_buckets(&group.buckets, table) {
        Some(sorted) => sorted,
        None => {
            return Err(MergeError::DataCorruption(Corruption::InvalidThreshold));
        },
    };
    let ghost views = ranked_views(sorted@);
    let mut k: usize = 0;
    while k < sorted.len()
        invariant
            k <= sorted.len(),
            views == ranked_views(sorted@),
            merged_samples_view(samples@) == put_buckets(start, name@, group@.labels, views, k as int),
        decreases sorted.len() - k,
    {
        let mut labels = group.labels.clone();
        labels.insert("le".to_owned(), sorted[k].le.clone());
        let value = cumulative_value(&sorted, k + 1);
        assert(views[k as int] == sorted@[k as int]@);
        let sample = MergedSample {
            name: name.to_owned().concat("_bucket"),
            labels,
            timestamp: ZERO,
            value,
        };
        assert(sample@ == bucket_sample(name@, group@.labels, views, k as int));
        put_sample(samples, sample);
        k += 1;
    }
    let value = cumulative_value(&sorted, sorted.len());
    let sample = MergedSample {
        name: name.to_owned().concat("_count"),
        labels: group.labels.clone(),
        timestamp: ZERO,
        value,
    };
    assert(sample@ == count_sample(name@, group@.labels, views));
    put_sample(samples, sample);
    Ok(())
}

/// Puts the samples of the groups of a histogram in, group by group.
///
/// Fails where the table lacks the threshold of a bucket.
pub fn finish_histogram(
    samples: Vec<MergedSample>,
    name: &str,
    groups: &Vec<Group>,
    table: &Vec<Threshold>,
) -> (r: Result<Vec<MergedSample>, MergeError>)
    ensures
        match finish_groups(
            merged_samples_view(samples@),
            name@,
            crate::aggregate::group_views(groups@),
            thresholds_view(table@),
            groups.len() as int,
        ) {
            Some(finished) => r is Ok && merged_samples_view(r->Ok_0@) == finished,
            None => fails_with(r, Corruption::InvalidThreshold),
        },
{
    let ghost start = merged_samples_view(samples@);
    let ghost views = crate::aggregate::group_views(groups@);
    let ghost tv = thresholds_view(table@);
    let mut out = samples;
    let mut i: usize = 0;
    while i < groups.len()
        invariant
            i <= groups.len(),
            views == crate::aggregate::group_views(groups@),
            tv == thresholds_view(table@),
            start == merged_samples_view(samples@),
            finish_groups(start, name@, views, tv, i as int) == Some(merged_samples_view(out@)),
        decreases groups.len() - i,
    {
        assert(views[i as int] == groups@[i as int]@);
        let ghost so_far = merged_samples_view(out@);
        match finish_group_into(&mut out, name, &groups[i], table) {
            Ok(()) => {},
            Err(e) => {
                proof {
                    lemma_finish_groups_fails_at(
                        start,
                        name@,
                        views,
                        tv,
                        i as int,
                        groups.len() as int,
                    );
                }
                return Err(e);
            },
        }
        i += 1;
    }
    Ok(out)
}

} // verus!
