//! Where the samples of a metric come from.
//!
//! The samples that a metric has after the files were taken are the samples
//! that the records of the first file gave it, behind them those of the
//! second, and so on: records for other metrics, and files without records for
//! it, do not show in them.

use crate::aggregate::SeriesKey;
use crate::collect::{
    absorb_file, absorb_files, absorb_record, absorb_records, collected, metric_names, sample_of,
    with_sample, FileContentView, SourceFileView,
};
use crate::error::ErrorView;
use crate::histogram::ThresholdView;
use crate::finished::{lemma_histogram_ignores_order, thresholds_apart};
use crate::merge::{
    lemma_merged_samples_needs, merged, merged_metric, merged_metrics, sample_thresholds,
};
use crate::metric::{spec_policy, MergedMetricView};
use crate::order::{
    lemma_merged_samples_ignore_order, merged_sample_of, order_free, same_sample,
};
use crate::files::{spec_classify, spec_load, FileClassView};
use crate::key::spec_parse_key;
use crate::layout::ByteOrder;
use crate::lookup::{first_place, lemma_first_place, lemma_first_place_with_key, with_key};
use crate::metric::{MetricView, SampleView};
use crate::record::RecordView;
use vstd::prelude::*;

verus! {

/// The metric of the name among the metrics, if it is among them.
pub open spec fn metric_of(metrics: Seq<MetricView>, name: Seq<char>) -> Option<MetricView> {
    match first_place(metric_names(metrics), name) {
        Some(i) => Some(metrics[i]),
        None => None,
    }
}

/// The samples of the metric of the name, and none where there is no such
/// metric.
pub open spec fn samples_of(metrics: Seq<MetricView>, name: Seq<char>) -> Seq<SampleView> {
    match metric_of(metrics, name) {
        Some(metric) => metric.samples,
        None => Seq::empty(),
    }
}

/// Whether the record is one for the metric of the name.
pub open spec fn names_metric(record: RecordView, name: Seq<char>) -> bool {
    spec_parse_key(record.key) is Some && spec_parse_key(record.key)->Some_0.metric_name == name
}

/// The samples that the records of a file of the class give to the metric of
/// the name, in their order.
pub open spec fn record_samples(
    class: FileClassView,
    records: Seq<RecordView>,
    name: Seq<char>,
) -> Seq<SampleView>
    decreases records.len(),
{
    if records.len() == 0 {
        Seq::empty()
    } else if names_metric(records.last(), name) {
        record_samples(class, records.drop_last(), name).push(
            sample_of(class, spec_parse_key(records.last().key)->Some_0, records.last()),
        )
    } else {
        record_samples(class, records.drop_last(), name)
    }
}

/// The samples that a file gives to the metric of the name.
pub open spec fn file_samples(file: SourceFileView, order: ByteOrder, name: Seq<char>) -> Seq<
    SampleView,
> {
    match (spec_classify(file.name), file.content) {
        (Ok(class), FileContentView::Data(data)) => match spec_load(data, order) {
            Ok(records) => record_samples(class, records, name),
            Err(_) => Seq::empty(),
        },
        _ => Seq::empty(),
    }
}

/// The samples that the first `count` files give to the metric of the name.
pub open spec fn files_samples(
    files: Seq<SourceFileView>,
    order: ByteOrder,
    name: Seq<char>,
    count: int,
) -> Seq<SampleView>
    decreases count,
{
    if count <= 0 {
        Seq::empty()
    } else {
        files_samples(files, order, name, count - 1) + file_samples(files[count - 1], order, name)
    }
}

/// A record gives its sample to the metric that its key names, and leaves
/// every other metric as it is.
pub proof fn lemma_metric_after_record(
    metrics: Seq<MetricView>,
    class: FileClassView,
    record: RecordView,
    name: Seq<char>,
)
    requires
        absorb_record(metrics, class, record) is Ok,
    ensures
        samples_of(absorb_record(metrics, class, record)->Ok_0, name) == if names_metric(
            record,
            name,
        ) {
            samples_of(metrics, name).push(
                sample_of(class, spec_parse_key(record.key)->Some_0, record),
            )
        } else {
            samples_of(metrics, name)
        },
        metric_of(absorb_record(metrics, class, record)->Ok_0, name) is Some <==> (names_metric(
            record,
            name,
        ) || metric_of(metrics, name) is Some),
{
    let key = spec_parse_key(record.key)->Some_0;
    let names = metric_names(metrics);
    let after = absorb_record(metrics, class, record)->Ok_0;
    lemma_first_place_with_key(names, key.metric_name, name);
    lemma_first_place_with_key(names, key.metric_name, key.metric_name);
    assert(metric_names(after) =~= with_key(names, key.metric_name));
    match first_place(names, key.metric_name) {
        Some(i) => {
            assert(names[i] == metrics[i].name);
        },
        None => {
            assert(Seq::<SampleView>::empty().push(sample_of(class, key, record)) =~= seq![
                sample_of(class, key, record),
            ]);
        },
    }
}

/// The records of a file give their samples to the metrics that their keys
/// name, in their order.
pub proof fn lemma_metric_after_records(
    metrics: Seq<MetricView>,
    class: FileClassView,
    records: Seq<RecordView>,
    count: int,
    name: Seq<char>,
)
    requires
        0 <= count <= records.len(),
        absorb_records(metrics, class, records, count) is Ok,
    ensures
        samples_of(absorb_records(metrics, class, records, count)->Ok_0, name) == samples_of(
            metrics,
            name,
        ) + record_samples(class, records.take(count), name),
        metric_of(absorb_records(metrics, class, records, count)->Ok_0, name) is Some <==> (
        metric_of(metrics, name) is Some || record_samples(class, records.take(count), name).len()
            > 0),
    decreases count,
{
    if count <= 0 {
        assert(records.take(count) =~= Seq::empty());
        assert(samples_of(metrics, name) + Seq::<SampleView>::empty() =~= samples_of(
            metrics,
            name,
        ));
    } else {
        let so_far = absorb_records(metrics, class, records, count - 1)->Ok_0;
        lemma_metric_after_records(metrics, class, records, count - 1, name);
        lemma_metric_after_record(so_far, class, records[count - 1], name);
        assert(records.take(count).drop_last() =~= records.take(count - 1));
        assert(records.take(count).last() == records[count - 1]);
        let given = record_samples(class, records.take(count - 1), name);
        if names_metric(records[count - 1], name) {
            let sample = sample_of(
                class,
                spec_parse_key(records[count - 1].key)->Some_0,
                records[count - 1],
            );
            assert((samples_of(metrics, name) + given).push(sample) =~= samples_of(metrics, name)
                + given.push(sample));
        }
    }
}

/// A file that is taken gives its samples to the metrics that its records
/// name.
pub proof fn lemma_metric_after_file(
    metrics: Seq<MetricView>,
    file: SourceFileView,
    order: ByteOrder,
    name: Seq<char>,
)
    requires
        absorb_file(metrics, file, order) is Ok,
    ensures
        samples_of(absorb_file(metrics, file, order)->Ok_0, name) == samples_of(metrics, name)
            + file_samples(file, order, name),
        metric_of(absorb_file(metrics, file, order)->Ok_0, name) is Some <==> (metric_of(
            metrics,
            name,
        ) is Some || file_samples(file, order, name).len() > 0),
{
    reveal(absorb_file);
    let class = spec_classify(file.name)->Ok_0;
    match file.content {
        FileContentView::Data(data) => {
            let records = spec_load(data, order)->Ok_0;
            lemma_metric_after_records(metrics, class, records, records.len() as int, name);
            assert(records.take(records.len() as int) =~= records);
        },
        _ => {
            assert(samples_of(metrics, name) + Seq::<SampleView>::empty() =~= samples_of(
                metrics,
                name,
            ));
        },
    }
}

/// The samples of a metric are those that the files gave it, file by file.
pub proof fn lemma_metric_after_files(
    files: Seq<SourceFileView>,
    order: ByteOrder,
    count: int,
    name: Seq<char>,
)
    requires
        0 <= count <= files.len(),
        absorb_files(Seq::empty(), files, order, count) is Ok,
    ensures
        samples_of(absorb_files(Seq::empty(), files, order, count)->Ok_0, name) == files_samples(
            files,
            order,
            name,
            count,
        ),
        metric_of(absorb_files(Seq::empty(), files, order, count)->Ok_0, name) is Some
            <==> files_samples(files, order, name, count).len() > 0,
    decreases count,
{
    if count <= 0 {
        assert(metric_names(Seq::<MetricView>::empty()) =~= Seq::<Seq<char>>::empty());
    } else {
        lemma_metric_after_files(files, order, count - 1, name);
        let so_far = absorb_files(Seq::empty(), files, order, count - 1)->Ok_0;
        lemma_metric_after_file(so_far, files[count - 1], order, name);
    }
}

/// Whether the name of the file is that of a file of the type and the mode.
#[verifier::opaque]
pub open spec fn of_class(file: SourceFileView, typ: Seq<char>, mode: Option<Seq<char>>) -> bool {
    spec_classify(file.name) is Ok && spec_classify(file.name)->Ok_0.typ == typ && spec_classify(
        file.name,
    )->Ok_0.mode == mode
}

/// Whether each key among the records has the help text that `help` gives
/// for the metric that it names.
pub open spec fn helps_agree(records: Seq<RecordView>, help: spec_fn(Seq<char>) -> Seq<char>) -> bool {
    forall|i: int|
        0 <= i < records.len() && spec_parse_key((#[trigger] records[i]).key) is Some
            ==> spec_parse_key(records[i].key)->Some_0.help_text == help(
            spec_parse_key(records[i].key)->Some_0.metric_name,
        )
}

/// Whether each key in the file has the help text that `help` gives for the
/// metric that it names.
#[verifier::opaque]
pub open spec fn file_helps_agree(
    file: SourceFileView,
    order: ByteOrder,
    help: spec_fn(Seq<char>) -> Seq<char>,
) -> bool {
    match file.content {
        FileContentView::Data(data) => match spec_load(data, order) {
            Ok(records) => helps_agree(records, help),
            Err(_) => true,
        },
        _ => true,
    }
}

/// Whether each of the metrics has the type, the mode, and the help text
/// that `help` gives for its name, as its documentation.
pub open spec fn carry(
    metrics: Seq<MetricView>,
    typ: Seq<char>,
    mode: Option<Seq<char>>,
    help: spec_fn(Seq<char>) -> Seq<char>,
) -> bool {
    forall|i: int|
        0 <= i < metrics.len() ==> (#[trigger] metrics[i]).typ == typ && metrics[i].mode == mode
            && metrics[i].documentation == help(metrics[i].name)
}

/// The records of files of one type and mode, whose help texts agree, make
/// metrics of that type and mode, with those help texts.
proof fn lemma_records_keep_class(
    metrics: Seq<MetricView>,
    class: FileClassView,
    records: Seq<RecordView>,
    count: int,
    help: spec_fn(Seq<char>) -> Seq<char>,
)
    requires
        0 <= count <= records.len(),
        carry(metrics, class.typ, class.mode, help),
        class.typ != "gauge"@ ==> class.mode is None,
        helps_agree(records, help),
        absorb_records(metrics, class, records, count) is Ok,
    ensures
        carry(absorb_records(metrics, class, records, count)->Ok_0, class.typ, class.mode, help),
    decreases count,
{
    if count > 0 {
        lemma_records_keep_class(metrics, class, records, count - 1, help);
        let so_far = absorb_records(metrics, class, records, count - 1)->Ok_0;
        let record = records[count - 1];
        let key = spec_parse_key(record.key)->Some_0;
        let after = absorb_record(so_far, class, record)->Ok_0;
        let names = metric_names(so_far);
        lemma_first_place(names, key.metric_name);
        assert forall|i: int| 0 <= i < after.len() implies (#[trigger] after[i]).typ == class.typ
            && after[i].mode == class.mode && after[i].documentation == help(after[i].name) by {
            match first_place(names, key.metric_name) {
                Some(at) => {
                    assert(so_far[i].typ == class.typ);
                },
                None => {
                    if i < so_far.len() {
                        assert(so_far[i].typ == class.typ);
                    }
                },
            }
        }
    }
}

/// Files of one type and mode, whose help texts agree, make metrics of that
/// type and mode, with those help texts.
proof fn lemma_files_keep_class(
    files: Seq<SourceFileView>,
    order: ByteOrder,
    count: int,
    typ: Seq<char>,
    mode: Option<Seq<char>>,
    help: spec_fn(Seq<char>) -> Seq<char>,
)
    requires
        0 <= count <= files.len(),
        forall|i: int| 0 <= i < files.len() ==> of_class(#[trigger] files[i], typ, mode),
        forall|i: int| 0 <= i < files.len() ==> file_helps_agree(#[trigger] files[i], order, help),
        absorb_files(Seq::empty(), files, order, count) is Ok,
    ensures
        carry(absorb_files(Seq::empty(), files, order, count)->Ok_0, typ, mode, help),
    decreases count,
{
    reveal(absorb_file);
    reveal(file_helps_agree);
    reveal(of_class);
    if count > 0 {
        lemma_files_keep_class(files, order, count - 1, typ, mode, help);
        let so_far = absorb_files(Seq::empty(), files, order, count - 1)->Ok_0;
        let file = files[count - 1];
        assert(of_class(file, typ, mode));
        assert(file_helps_agree(file, order, help));
        let class = spec_classify(file.name)->Ok_0;
        match file.content {
            FileContentView::Data(data) => {
                let records = spec_load(data, order)->Ok_0;
                lemma_records_keep_class(so_far, class, records, records.len() as int, help);
            },
            _ => {},
        }
    }
}

/// The names of merged metrics.
pub open spec fn merged_names(merged: Seq<MergedMetricView>) -> Seq<Seq<char>> {
    merged.map_values(|m: MergedMetricView| m.name)
}

/// The merged metric of the name among the merged metrics, if it is among
/// them.
pub open spec fn merged_metric_of(merged: Seq<MergedMetricView>, name: Seq<char>) -> Option<
    MergedMetricView,
> {
    match first_place(merged_names(merged), name) {
        Some(i) => Some(merged[i]),
        None => None,
    }
}

/// The merged metrics are the metrics, each merged, in their order.
pub proof fn lemma_merged_metrics_pointwise(metrics: Seq<MetricView>, table: Seq<ThresholdView>)
    ensures
        merged_metrics(metrics, table) is Some <==> forall|i: int|
            0 <= i < metrics.len() ==> merged_metric(#[trigger] metrics[i], table) is Some,
        merged_metrics(metrics, table) matches Some(merged) ==> merged.len() == metrics.len()
            && forall|i: int|
            0 <= i < metrics.len() ==> merged_metric(metrics[i], table) == Some(
                #[trigger] merged[i],
            ),
    decreases metrics.len(),
{
    if metrics.len() > 0 {
        let front = metrics.drop_last();
        lemma_merged_metrics_pointwise(front, table);
        if merged_metrics(metrics, table) is Some {
            let merged = merged_metrics(metrics, table)->Some_0;
            let before = merged_metrics(front, table)->Some_0;
            assert forall|i: int| 0 <= i < metrics.len() implies merged_metric(
                #[trigger] metrics[i],
                table,
            ) is Some && merged_metric(metrics[i], table) == Some(merged[i]) by {
                if i < front.len() {
                    assert(front[i] == metrics[i]);
                    assert(merged[i] == before[i]);
                }
            }
        } else {
            if merged_metrics(front, table) is None {
                let i = choose|i: int|
                    0 <= i < front.len() && !(merged_metric(#[trigger] front[i], table) is Some);
                assert(front[i] == metrics[i]);
            } else {
                assert(metrics[metrics.len() - 1] == metrics.last());
            }
        }
    }
}

/// The merged metric of a name is the merge of the metric of that name.
pub proof fn lemma_merged_metric_of(metrics: Seq<MetricView>, table: Seq<ThresholdView>, name: Seq<char>)
    requires
        merged_metrics(metrics, table) is Some,
    ensures
        merged_metric_of(merged_metrics(metrics, table)->Some_0, name) == match metric_of(
            metrics,
            name,
        ) {
            Some(metric) => merged_metric(metric, table),
            None => None,
        },
{
    lemma_merged_metrics_pointwise(metrics, table);
    let merged = merged_metrics(metrics, table)->Some_0;
    assert(merged_names(merged) =~= metric_names(metrics)) by {
        assert forall|i: int| 0 <= i < metrics.len() implies merged_names(merged)[i]
            == metric_names(metrics)[i] by {
            assert(merged_metric(metrics[i], table) == Some(merged[i]));
        }
    }
    lemma_first_place(metric_names(metrics), name);
}

/// The merged metric of a name, of metrics that two files of one type and
/// mode made, taken in the two orders.
proof fn lemma_merged_metric_ignores_order(
    first: Seq<MetricView>,
    second: Seq<MetricView>,
    a: Seq<SampleView>,
    b: Seq<SampleView>,
    table: Seq<ThresholdView>,
    typ: Seq<char>,
    mode: Option<Seq<char>>,
    help: spec_fn(Seq<char>) -> Seq<char>,
    name: Seq<char>,
    key: SeriesKey,
)
    requires
        carry(first, typ, mode, help),
        carry(second, typ, mode, help),
        samples_of(first, name) == a + b,
        samples_of(second, name) == b + a,
        metric_of(first, name) is Some <==> metric_of(second, name) is Some,
        order_free(spec_policy(typ, mode), a, b, key),
        spec_policy(typ, mode) is Histogram ==> thresholds_apart(table, sample_thresholds(a + b)),
        merged_metrics(first, table) is Some,
        merged_metrics(second, table) is Some,
    ensures
        match (
            merged_metric_of(merged_metrics(first, table)->Some_0, name),
            merged_metric_of(merged_metrics(second, table)->Some_0, name),
        ) {
            (Some(x), Some(y)) => x.name == y.name && x.documentation == y.documentation && x.typ
                == y.typ && same_sample(
                merged_sample_of(x.samples, key),
                merged_sample_of(y.samples, key),
            ),
            (None, None) => true,
            _ => false,
        },
{
    lemma_merged_metric_of(first, table, name);
    lemma_merged_metric_of(second, table, name);
    lemma_merged_metrics_pointwise(first, table);
    lemma_merged_metrics_pointwise(second, table);
    lemma_first_place(metric_names(first), name);
    lemma_first_place(metric_names(second), name);
    match (metric_of(first, name), metric_of(second, name)) {
        (Some(x), Some(y)) => {
            if spec_policy(typ, mode) is Histogram {
                lemma_merged_samples_needs(x, table);
                lemma_histogram_ignores_order(x, y, a, b, table, key);
            } else {
                lemma_merged_samples_ignore_order(x, y, a, b, table, key);
            }
        },
        _ => {},
    }
}

/// Two files of one type and mode, whose help texts agree, make metrics of
/// that type and mode, with those help texts.
proof fn lemma_two_files_keep_class(
    a: SourceFileView,
    b: SourceFileView,
    order: ByteOrder,
    typ: Seq<char>,
    mode: Option<Seq<char>>,
    help: spec_fn(Seq<char>) -> Seq<char>,
)
    requires
        of_class(a, typ, mode),
        of_class(b, typ, mode),
        file_helps_agree(a, order, help),
        file_helps_agree(b, order, help),
        collected(seq![a, b], order) is Ok,
    ensures
        carry(collected(seq![a, b], order)->Ok_0, typ, mode, help),
{
    let files = seq![a, b];
    assert forall|i: int| 0 <= i < files.len() implies of_class(#[trigger] files[i], typ, mode) by {
        if i == 0 {
            assert(files[i] == a);
        } else {
            assert(files[i] == b);
        }
    }
    assert forall|i: int| 0 <= i < files.len() implies file_helps_agree(
        #[trigger] files[i],
        order,
        help,
    ) by {
        if i == 0 {
            assert(files[i] == a);
        } else {
            assert(files[i] == b);
        }
    }
    lemma_files_keep_class(files, order, 2, typ, mode, help);
}

/// The samples of a metric after two files are those that the first gave it
/// and behind them those that the second gave it.
proof fn lemma_two_files_samples(
    a: SourceFileView,
    b: SourceFileView,
    order: ByteOrder,
    name: Seq<char>,
)
    requires
        collected(seq![a, b], order) is Ok,
    ensures
        samples_of(collected(seq![a, b], order)->Ok_0, name) == file_samples(a, order, name)
            + file_samples(b, order, name),
        metric_of(collected(seq![a, b], order)->Ok_0, name) is Some <==> (file_samples(
            a,
            order,
            name,
        ) + file_samples(b, order, name)).len() > 0,
{
    let files = seq![a, b];
    lemma_metric_after_files(files, order, 2, name);
    assert(files_samples(files, order, name, 2) =~= file_samples(a, order, name) + file_samples(
        b,
        order,
        name,
    )) by {
        reveal_with_fuel(files_samples, 3);
        assert(files[0] == a);
        assert(files[1] == b);
    }
}

/// Where files can be merged, their samples can be gathered and the metrics
/// can be merged, and the merge of the files is the merge of the metrics.
pub proof fn lemma_merged_is_merge_of_collected(
    files: Seq<SourceFileView>,
    table: Seq<ThresholdView>,
    order: ByteOrder,
)
    requires
        merged(files, table, order) is Ok,
    ensures
        collected(files, order) is Ok,
        merged_metrics(collected(files, order)->Ok_0, table) == Some(
            merged(files, table, order)->Ok_0,
        ),
{
    reveal(merged);
}

/// Merging two files of one type and mode gives the same, whichever of the
/// two is taken first: the same metrics, each with the same merged samples,
/// the terms of their sums in another order at most.
///
/// The help texts of the files are to agree. The samples that fall together
/// in the series of `key` are to be such that the series does not depend on
/// their order, as [`order_free`] says it for the policy. For histograms, the
/// table is to give numbers that differ for thresholds that differ.
pub proof fn lemma_merge_ignores_order_of_two_files(
    a: SourceFileView,
    b: SourceFileView,
    order: ByteOrder,
    table: Seq<ThresholdView>,
    typ: Seq<char>,
    mode: Option<Seq<char>>,
    help: spec_fn(Seq<char>) -> Seq<char>,
    name: Seq<char>,
    key: SeriesKey,
)
    requires
        of_class(a, typ, mode),
        of_class(b, typ, mode),
        file_helps_agree(a, order, help),
        file_helps_agree(b, order, help),
        merged(seq![a, b], table, order) is Ok,
        merged(seq![b, a], table, order) is Ok,
        order_free(
            spec_policy(typ, mode),
            file_samples(a, order, name),
            file_samples(b, order, name),
            key,
        ),
        spec_policy(typ, mode) is Histogram ==> thresholds_apart(
            table,
            sample_thresholds(file_samples(a, order, name) + file_samples(b, order, name)),
        ),
    ensures
        match (
            merged_metric_of(merged(seq![a, b], table, order)->Ok_0, name),
            merged_metric_of(merged(seq![b, a], table, order)->Ok_0, name),
        ) {
            (Some(x), Some(y)) => x.name == y.name && x.documentation == y.documentation && x.typ
                == y.typ && same_sample(
                merged_sample_of(x.samples, key),
                merged_sample_of(y.samples, key),
            ),
            (None, None) => true,
            _ => false,
        },
{
    lemma_merged_is_merge_of_collected(seq![a, b], table, order);
    lemma_merged_is_merge_of_collected(seq![b, a], table, order);
    let m1 = collected(seq![a, b], order)->Ok_0;
    let m2 = collected(seq![b, a], order)->Ok_0;
    let sa = file_samples(a, order, name);
    let sb = file_samples(b, order, name);
    lemma_two_files_keep_class(a, b, order, typ, mode, help);
    lemma_two_files_keep_class(b, a, order, typ, mode, help);
    lemma_two_files_samples(a, b, order, name);
    lemma_two_files_samples(b, a, order, name);
    assert((sa + sb).len() == (sb + sa).len());
    lemma_merged_metric_ignores_order(m1, m2, sa, sb, table, typ, mode, help, name, key);
}

/// The metric that a key makes when its name comes first, before it has a
/// sample.
pub open spec fn made_for(class: FileClassView, record: RecordView) -> MetricView {
    MetricView {
        name: spec_parse_key(record.key)->Some_0.metric_name,
        documentation: spec_parse_key(record.key)->Some_0.help_text,
        typ: class.typ,
        mode: None,
        samples: Seq::empty(),
    }
}

/// What a record makes of the metric of the name: where the record is one
/// for it, the metric gets the sample, and is made if it was not there.
pub open spec fn metric_after_record(
    before: Option<MetricView>,
    class: FileClassView,
    record: RecordView,
    name: Seq<char>,
) -> Option<MetricView> {
    if names_metric(record, name) {
        Some(
            with_sample(
                match before {
                    Some(metric) => metric,
                    None => made_for(class, record),
                },
                class,
                sample_of(class, spec_parse_key(record.key)->Some_0, record),
            ),
        )
    } else {
        before
    }
}

/// What the first `count` records of a file make of the metric of the name.
pub open spec fn metric_after_records(
    before: Option<MetricView>,
    class: FileClassView,
    records: Seq<RecordView>,
    count: int,
    name: Seq<char>,
) -> Option<MetricView>
    decreases count,
{
    if count <= 0 {
        before
    } else {
        metric_after_record(
            metric_after_records(before, class, records, count - 1, name),
            class,
            records[count - 1],
            name,
        )
    }
}

/// What a file that is taken makes of the metric of the name.
pub open spec fn metric_after_file(
    before: Option<MetricView>,
    file: SourceFileView,
    order: ByteOrder,
    name: Seq<char>,
) -> Option<MetricView> {
    match (spec_classify(file.name), file.content) {
        (Ok(class), FileContentView::Data(data)) => match spec_load(data, order) {
            Ok(records) => metric_after_records(before, class, records, records.len() as int, name),
            Err(_) => before,
        },
        _ => before,
    }
}

/// What a record makes of a metric depends on that metric alone.
pub proof fn lemma_whole_metric_after_record(
    metrics: Seq<MetricView>,
    class: FileClassView,
    record: RecordView,
    name: Seq<char>,
)
    requires
        absorb_record(metrics, class, record) is Ok,
    ensures
        metric_of(absorb_record(metrics, class, record)->Ok_0, name) == metric_after_record(
            metric_of(metrics, name),
            class,
            record,
            name,
        ),
{
    let key = spec_parse_key(record.key)->Some_0;
    let names = metric_names(metrics);
    let after = absorb_record(metrics, class, record)->Ok_0;
    lemma_first_place_with_key(names, key.metric_name, name);
    lemma_first_place_with_key(names, key.metric_name, key.metric_name);
    assert(metric_names(after) =~= with_key(names, key.metric_name));
    match first_place(names, key.metric_name) {
        Some(i) => {
            assert(names[i] == metrics[i].name);
        },
        None => {},
    }
}

/// What the records of a file make of a metric depends on that metric alone.
pub proof fn lemma_whole_metric_after_records(
    metrics: Seq<MetricView>,
    class: FileClassView,
    records: Seq<RecordView>,
    count: int,
    name: Seq<char>,
)
    requires
        0 <= count <= records.len(),
        absorb_records(metrics, class, records, count) is Ok,
    ensures
        metric_of(absorb_records(metrics, class, records, count)->Ok_0, name)
            == metric_after_records(metric_of(metrics, name), class, records, count, name),
    decreases count,
{
    if count > 0 {
        lemma_whole_metric_after_records(metrics, class, records, count - 1, name);
        let so_far = absorb_records(metrics, class, records, count - 1)->Ok_0;
        lemma_whole_metric_after_record(so_far, class, records[count - 1], name);
    }
}

/// What a file makes of a metric depends on that metric alone.
pub proof fn lemma_whole_metric_after_file(
    metrics: Seq<MetricView>,
    file: SourceFileView,
    order: ByteOrder,
    name: Seq<char>,
)
    requires
        absorb_file(metrics, file, order) is Ok,
    ensures
        metric_of(absorb_file(metrics, file, order)->Ok_0, name) == metric_after_file(
            metric_of(metrics, name),
            file,
            order,
            name,
        ),
{
    reveal(absorb_file);
    let class = spec_classify(file.name)->Ok_0;
    match file.content {
        FileContentView::Data(data) => {
            let records = spec_load(data, order)->Ok_0;
            lemma_whole_metric_after_records(metrics, class, records, records.len() as int, name);
        },
        _ => {},
    }
}

/// Records that give no sample to a metric leave it as it is.
proof fn lemma_records_without_samples(
    before: Option<MetricView>,
    class: FileClassView,
    records: Seq<RecordView>,
    count: int,
    name: Seq<char>,
)
    requires
        0 <= count <= records.len(),
        record_samples(class, records.take(count), name).len() == 0,
    ensures
        metric_after_records(before, class, records, count, name) == before,
    decreases count,
{
    if count > 0 {
        assert(records.take(count).drop_last() =~= records.take(count - 1));
        assert(records.take(count).last() == records[count - 1]);
        lemma_records_without_samples(before, class, records, count - 1, name);
    }
}

/// A file that gives no sample to a metric leaves it as it is.
pub proof fn lemma_file_without_samples(
    before: Option<MetricView>,
    file: SourceFileView,
    order: ByteOrder,
    name: Seq<char>,
)
    requires
        file_samples(file, order, name).len() == 0,
    ensures
        metric_after_file(before, file, order, name) == before,
{
    match (spec_classify(file.name), file.content) {
        (Ok(class), FileContentView::Data(data)) => match spec_load(data, order) {
            Ok(records) => {
                assert(records.take(records.len() as int) =~= records);
                lemma_records_without_samples(before, class, records, records.len() as int, name);
            },
            Err(_) => {},
        },
        _ => {},
    }
}

/// The metric of a name after two files is what the second makes of what the
/// first made of none.
proof fn lemma_two_files_metric(
    a: SourceFileView,
    b: SourceFileView,
    order: ByteOrder,
    name: Seq<char>,
)
    requires
        collected(seq![a, b], order) is Ok,
    ensures
        metric_of(collected(seq![a, b], order)->Ok_0, name) == metric_after_file(
            metric_after_file(None, a, order, name),
            b,
            order,
            name,
        ),
{
    let files = seq![a, b];
    assert(files[0] == a);
    assert(files[1] == b);
    let none = absorb_files(Seq::empty(), files, order, 0);
    let one = absorb_files(Seq::empty(), files, order, 1);
    let two = absorb_files(Seq::empty(), files, order, 2);
    assert(none == Ok::<Seq<MetricView>, ErrorView>(Seq::empty()));
    assert(one == absorb_file(Seq::empty(), a, order)) by {
        reveal_with_fuel(absorb_files, 2);
    }
    assert(two == absorb_file(one->Ok_0, b, order) && one is Ok) by {
        reveal_with_fuel(absorb_files, 3);
    }
    assert(metric_names(Seq::<MetricView>::empty()) =~= Seq::<Seq<char>>::empty());
    lemma_whole_metric_after_file(Seq::empty(), a, order, name);
    lemma_whole_metric_after_file(one->Ok_0, b, order, name);
}

/// A metric that gets its samples from one of two files alone is merged to
/// the same, whichever of the files is taken first. The files may be of
/// different types and modes.
pub proof fn lemma_merge_ignores_order_of_files_apart(
    a: SourceFileView,
    b: SourceFileView,
    order: ByteOrder,
    table: Seq<ThresholdView>,
    name: Seq<char>,
)
    requires
        merged(seq![a, b], table, order) is Ok,
        merged(seq![b, a], table, order) is Ok,
        file_samples(a, order, name).len() == 0 || file_samples(b, order, name).len() == 0,
    ensures
        merged_metric_of(merged(seq![a, b], table, order)->Ok_0, name) == merged_metric_of(
            merged(seq![b, a], table, order)->Ok_0,
            name,
        ),
{
    lemma_merged_is_merge_of_collected(seq![a, b], table, order);
    lemma_merged_is_merge_of_collected(seq![b, a], table, order);
    let m1 = collected(seq![a, b], order)->Ok_0;
    let m2 = collected(seq![b, a], order)->Ok_0;
    lemma_two_files_metric(a, b, order, name);
    lemma_two_files_metric(b, a, order, name);
    if file_samples(a, order, name).len() == 0 {
        lemma_file_without_samples(None, a, order, name);
        lemma_file_without_samples(metric_after_file(None, b, order, name), a, order, name);
    } else {
        lemma_file_without_samples(None, b, order, name);
        lemma_file_without_samples(metric_after_file(None, a, order, name), b, order, name);
    }
    assert(metric_of(m1, name) == metric_of(m2, name));
    lemma_merged_metric_of(m1, table, name);
    lemma_merged_metric_of(m2, table, name);
}

} // verus!
