//! The samples of the files, gathered by metric.
//!
//! The files are taken in their order, and the records of a file in theirs.
//! A record goes to the metric that its key names; the metric is made when its
//! name comes first, with the help text of that key and the type of that file.
//! A sample of a gauge file gets the process id of the file as the label
//! `pid`, and gives the metric the mode of the file.

use crate::error::{ErrorView, Corruption, MergeError};
use crate::files::{
    classify_file_name, load_records, spec_classify, spec_load, FileClass, FileClassView,
};
use crate::key::{spec_parse_key, Key, KeyCache, KeyView};
use crate::layout::ByteOrder;
use crate::lookup::{first_place, lemma_first_place, lemma_first_place_with_key};
use crate::metric::{metrics_view, Metric, MetricView, SampleView};
use crate::record::{records_view, Record, RecordView};
use crate::text::str_eq;
use vstd::hash_map::StringHashMap;
use vstd::prelude::*;

verus! {

/// What came of reading a file.
#[derive(Debug)]
pub enum FileContent {
    /// The file was not there; the text is that of the failure.
    NotFound(String),
    /// The file could not be opened or read; the text is that of the failure.
    Unreadable(String),
    /// The bytes that were read.
    Data(Vec<u8>),
}

/// What came of reading a file.
pub enum FileContentView {
    NotFound(Seq<char>),
    Unreadable(Seq<char>),
    Data(Seq<u8>),
}

impl View for FileContent {
    type V = FileContentView;

    open spec fn view(&self) -> FileContentView {
        match self {
            FileContent::NotFound(text) => FileContentView::NotFound(text@),
            FileContent::Unreadable(text) => FileContentView::Unreadable(text@),
            FileContent::Data(data) => FileContentView::Data(data@),
        }
    }
}

/// A file to merge: its name, without the directories before it, and what
/// came of reading it.
#[derive(Debug)]
pub struct SourceFile {
    pub name: String,
    pub content: FileContent,
}

/// What a file to merge holds.
pub struct SourceFileView {
    pub name: Seq<char>,
    pub content: FileContentView,
}

impl View for SourceFile {
    type V = SourceFileView;

    open spec fn view(&self) -> SourceFileView {
        SourceFileView { name: self.name@, content: self.content@ }
    }
}

/// What a list of files holds.
pub open spec fn files_view(files: Seq<SourceFile>) -> Seq<SourceFileView> {
    files.map_values(|f: SourceFile| f@)
}

/// The names of a list of metrics.
pub open spec fn metric_names(metrics: Seq<MetricView>) -> Seq<Seq<char>> {
    metrics.map_values(|m: MetricView| m.name)
}

/// The sample that a record of a file of the class gives: that of a gauge
/// file carries the process id of the file.
pub open spec fn sample_of(class: FileClassView, key: KeyView, record: RecordView) -> SampleView {
    SampleView {
        name: key.name,
        labels: if class.typ == "gauge"@ && class.pid is Some {
            key.labels.insert("pid"@, class.pid->Some_0)
        } else {
            key.labels
        },
        timestamp: record.timestamp,
        value: record.value,
    }
}

/// The metric with one more sample, from a file of the class.
pub open spec fn with_sample(metric: MetricView, class: FileClassView, sample: SampleView) -> MetricView {
    MetricView {
        mode: if class.typ == "gauge"@ {
            class.mode
        } else {
            metric.mode
        },
        samples: metric.samples.push(sample),
        ..metric
    }
}

/// The metrics after a record of a file of the class.
pub open spec fn absorb_record(metrics: Seq<MetricView>, class: FileClassView, record: RecordView) -> Result<
    Seq<MetricView>,
    ErrorView,
> {
    match spec_parse_key(record.key) {
        None => Err(ErrorView::DataCorruption(Corruption::InvalidKey)),
        Some(key) => if class.typ == "gauge"@ && class.pid is None {
            Err(ErrorView::DataCorruption(Corruption::MissingPid))
        } else {
            let sample = sample_of(class, key, record);
            match first_place(metric_names(metrics), key.metric_name) {
                Some(i) => Ok(metrics.update(i, with_sample(metrics[i], class, sample))),
                None => Ok(
                    metrics.push(
                        with_sample(
                            MetricView {
                                name: key.metric_name,
                                documentation: key.help_text,
                                typ: class.typ,
                                mode: None,
                                samples: Seq::empty(),
                            },
                            class,
                            sample,
                        ),
                    ),
                ),
            }
        },
    }
}

/// The metrics after the first `count` records of a file of the class.
pub open spec fn absorb_records(
    metrics: Seq<MetricView>,
    class: FileClassView,
    records: Seq<RecordView>,
    count: int,
) -> Result<Seq<MetricView>, ErrorView>
    decreases count,
{
    if count <= 0 {
        Ok(metrics)
    } else {
        match absorb_records(metrics, class, records, count - 1) {
            Ok(so_far) => absorb_record(so_far, class, records[count - 1]),
            Err(e) => Err(e),
        }
    }
}

/// The metrics after a file.
///
/// A file that was not there is passed over where it is a gauge file of a
/// live mode, and fails the merge where it is any other file.
#[verifier::opaque]
pub open spec fn absorb_file(metrics: Seq<MetricView>, file: SourceFileView, order: ByteOrder) -> Result<
    Seq<MetricView>,
    ErrorView,
> {
    match spec_classify(file.name) {
        Err(c) => Err(ErrorView::DataCorruption(c)),
        Ok(class) => match file.content {
            FileContentView::NotFound(text) => if class.live {
                Ok(metrics)
            } else {
                Err(ErrorView::IoFailure(text))
            },
            FileContentView::Unreadable(text) => Err(ErrorView::IoFailure(text)),
            FileContentView::Data(data) => match spec_load(data, order) {
                Err(c) => Err(ErrorView::DataCorruption(c)),
                Ok(records) => absorb_records(metrics, class, records, records.len() as int),
            },
        },
    }
}

/// The metrics after the first `count` files.
pub open spec fn absorb_files(
    metrics: Seq<MetricView>,
    files: Seq<SourceFileView>,
    order: ByteOrder,
    count: int,
) -> Result<Seq<MetricView>, ErrorView>
    decreases count,
{
    if count <= 0 {
        Ok(metrics)
    } else {
        match absorb_files(metrics, files, order, count - 1) {
            Ok(so_far) => absorb_file(so_far, files[count - 1], order),
            Err(e) => Err(e),
        }
    }
}

/// The metrics of the files, with their samples as they were read.
pub open spec fn collected(files: Seq<SourceFileView>, order: ByteOrder) -> Result<
    Seq<MetricView>,
    ErrorView,
> {
    absorb_files(Seq::empty(), files, order, files.len() as int)
}

/// Whether `r` is the outcome `expected`.
pub open spec fn collected_as(
    r: Result<Vec<Metric>, MergeError>,
    expected: Result<Seq<MetricView>, ErrorView>,
) -> bool {
    match (r, expected) {
        (Ok(metrics), Ok(views)) => metrics_view(metrics@) == views,
        (Err(e), Err(v)) => e@ == v,
        _ => false,
    }
}

/// Once a record fails, every longer run of records fails in the same way.
pub proof fn lemma_absorb_records_fails_on(
    metrics: Seq<MetricView>,
    class: FileClassView,
    records: Seq<RecordView>,
    failed: int,
    count: int,
)
    requires
        0 <= failed <= count,
        absorb_records(metrics, class, records, failed) is Err,
    ensures
        absorb_records(metrics, class, records, count) == absorb_records(
            metrics,
            class,
            records,
            failed,
        ),
    decreases count,
{
    if failed < count {
        lemma_absorb_records_fails_on(metrics, class, records, failed, count - 1);
    }
}

/// Once a file fails, every longer run of files fails in the same way.
pub proof fn lemma_absorb_files_fails_on(
    metrics: Seq<MetricView>,
    files: Seq<SourceFileView>,
    order: ByteOrder,
    failed: int,
    count: int,
)
    requires
        0 <= failed <= count,
        absorb_files(metrics, files, order, failed) is Err,
    ensures
        absorb_files(metrics, files, order, count) == absorb_files(metrics, files, order, failed),
    decreases count,
{
    if failed < count {
        lemma_absorb_files_fails_on(metrics, files, order, failed, count - 1);
    }
}

/// Whether the file was not there and is a gauge file of a live mode.
pub open spec fn is_missing_live_gauge(file: SourceFileView) -> bool {
    file.content is NotFound && spec_classify(file.name) is Ok && spec_classify(file.name)->Ok_0.live
}

/// Whether the file was not there and is no gauge file of a live mode, though
/// its name is sound.
pub open spec fn is_missing_other(file: SourceFileView) -> bool {
    file.content is NotFound && spec_classify(file.name) is Ok && !spec_classify(
        file.name,
    )->Ok_0.live
}

/// The files, taken up to `count`, give the same with and without a file
/// that is passed over at `at`.
proof fn lemma_absorb_files_without(
    metrics: Seq<MetricView>,
    files: Seq<SourceFileView>,
    order: ByteOrder,
    at: int,
    count: int,
)
    requires
        0 <= at < files.len(),
        0 <= count <= files.len(),
        is_missing_live_gauge(files[at]),
    ensures
        count <= at ==> absorb_files(metrics, files, order, count) == absorb_files(
            metrics,
            files.remove(at),
            order,
            count,
        ),
        count > at ==> absorb_files(metrics, files, order, count) == absorb_files(
            metrics,
            files.remove(at),
            order,
            count - 1,
        ),
    decreases count,
{
    reveal(absorb_file);
    if count > 0 {
        lemma_absorb_files_without(metrics, files, order, at, count - 1);
        if count - 1 < at {
            assert(files.remove(at)[count - 1] == files[count - 1]);
        } else if count - 1 > at {
            assert(files.remove(at)[count - 2] == files[count - 1]);
        }
    }
}

/// A gauge file of a live mode that was not there does not fail the merge and
/// contributes no samples: the files give what they give without it.
pub proof fn lemma_missing_live_gauge_contributes_nothing(
    files: Seq<SourceFileView>,
    order: ByteOrder,
    at: int,
)
    requires
        0 <= at < files.len(),
        is_missing_live_gauge(files[at]),
    ensures
        collected(files, order) == collected(files.remove(at), order),
{
    lemma_absorb_files_without(Seq::empty(), files, order, at, files.len() as int);
}

/// A file that was not there and is no gauge file of a live mode fails the
/// merge, with the text of the failure, unless a file before it fails.
pub proof fn lemma_missing_file_fails(files: Seq<SourceFileView>, order: ByteOrder, at: int)
    requires
        0 <= at < files.len(),
        is_missing_other(files[at]),
        absorb_files(Seq::empty(), files, order, at) is Ok,
    ensures
        collected(files, order) == Err::<Seq<MetricView>, ErrorView>(
            ErrorView::IoFailure(files[at].content->NotFound_0),
        ),
{
    reveal(absorb_file);
    assert(absorb_files(Seq::empty(), files, order, at + 1) is Err);
    lemma_absorb_files_fails_on(Seq::empty(), files, order, at + 1, files.len() as int);
}

/// Whether the index gives, for each name among the names, its first place,
/// and holds no other name.
pub open spec fn indexed(names: Seq<Seq<char>>, index: Map<Seq<char>, usize>) -> bool {
    forall|name: Seq<char>|
        (#[trigger] index.contains_key(name) <==> first_place(names, name) is Some) && (
        index.contains_key(name) ==> first_place(names, name) == Some(index[name] as int))
}

/// Gives the sample of a record to its metric.
fn absorb_record_into(
    metrics: &mut Vec<Metric>,
    index: &mut StringHashMap<usize>,
    cache: &mut KeyCache,
    class: &FileClass,
    record: &Record,
) -> (r: Result<(), MergeError>)
    requires
        indexed(metric_names(metrics_view(old(metrics)@)), old(index)@),
    ensures
        indexed(metric_names(metrics_view(final(metrics)@)), final(index)@),
        match absorb_record(metrics_view(old(metrics)@), class@, record@) {
            Ok(after) => r is Ok && metrics_view(final(metrics)@) == after,
            Err(e) => r is Err && r->Err_0@ == e,
        },
{
    let ghost before = metrics_view(metrics@);
    let ghost names = metric_names(before);
    let key = match cache.decode(record.key.as_str()) {
        Ok(key) => key,
        Err(e) => {
            return Err(e);
        },
    };
    let gauge = str_eq(class.typ.as_str(), "gauge");
    let Key { metric_name, name, labels, help_text } = key;
    let mut labels = labels;
    if gauge {
        match &class.pid {
            Some(pid) => {
                labels.insert("pid".to_owned(), pid.clone());
            },
            None => {
                return Err(MergeError::DataCorruption(Corruption::MissingPid));
            },
        }
    }
    let ghost sample = sample_of(class@, key@, record@);
    assert(labels@ == sample.labels);
    proof {
        lemma_first_place(names, key@.metric_name);
    }
    let found: Option<usize> = match index.get(metric_name.as_str()) {
        Some(i) => Some(*i),
        None => None,
    };
    let at: usize = match found {
        Some(i) => i,
        None => {
            let ghost made = MetricView {
                name: metric_name@,
                documentation: help_text@,
                typ: class@.typ,
                mode: None,
                samples: Seq::empty(),
            };
            let ghost old_index = index@;
            index.insert(metric_name.clone(), metrics.len());
            metrics.push(Metric::new(metric_name, help_text, class.typ.clone()));
            proof {
                assert(metrics_view(metrics@) =~= before.push(made));
                let longer = metric_names(metrics_view(metrics@));
                assert(longer =~= names.push(key@.metric_name));
                assert forall|n: Seq<char>|
                    (#[trigger] index@.contains_key(n) <==> first_place(longer, n) is Some) && (
                    index@.contains_key(n) ==> first_place(longer, n) == Some(
                        index@[n] as int,
                    )) by {
                    lemma_first_place_with_key(names, key@.metric_name, n);
                    assert(old_index.contains_key(n) <==> first_place(names, n) is Some);
                }
            }
            metrics.len() - 1
        },
    };
    let ghost listed = metrics_view(metrics@);
    assert(listed[at as int] == metrics@[at as int]@);
    if gauge {
        metrics[at].multiprocess_mode = match &class.mode {
            Some(mode) => Some(mode.clone()),
            None => None,
        };
    }
    metrics[at].add_sample(name, labels, record.value, record.timestamp);
    proof {
        let after = metrics_view(metrics@);
        let expected = listed.update(at as int, with_sample(listed[at as int], class@, sample));
        assert(after[at as int] == metrics@[at as int]@);
        assert forall|k: int| 0 <= k < after.len() implies after[k] == expected[k] by {
            if k != at {
                assert(after[k] == metrics@[k]@);
            }
        }
        assert(after =~= expected);
        assert(metric_names(after) =~= metric_names(listed));
        match first_place(names, key@.metric_name) {
            Some(i) => {},
            None => {
                assert(expected =~= before.push(with_sample(listed[at as int], class@, sample)));
            },
        }
    }
    Ok(())
}

/// The metrics of a merge, while the files are taken one by one.
pub struct Collector {
    metrics: Vec<Metric>,
    index: StringHashMap<usize>,
    cache: KeyCache,
}

impl Collector {
    /// The metrics that were gathered so far.
    pub closed spec fn metrics(self) -> Seq<MetricView> {
        metrics_view(self.metrics@)
    }

    /// The index gives the place of each metric.
    #[verifier::type_invariant]
    spec fn wf(self) -> bool {
        indexed(metric_names(metrics_view(self.metrics@)), self.index@)
    }

    /// A collector that has seen no file.
    pub fn new() -> (r: Collector)
        ensures
            r.metrics() == Seq::<MetricView>::empty(),
    {
        let metrics: Vec<Metric> = Vec::new();
        proof {
            assert(metrics_view(metrics@) =~= Seq::<MetricView>::empty());
            assert(metric_names(metrics_view(metrics@)) =~= Seq::<Seq<char>>::empty());
        }
        Collector { metrics, index: StringHashMap::new(), cache: KeyCache::new() }
    }

    /// Gives the samples of the records of a file to their metrics.
    ///
    /// After a failure the collector holds what was gathered up to the record
    /// that failed, and is of no more use.
    pub fn absorb_records(&mut self, class: &FileClass, records: &Vec<Record>) -> (r: Result<
        (),
        MergeError,
    >)
        ensures
            match absorb_records(
                old(self).metrics(),
                class@,
                records_view(records@),
                records.len() as int,
            ) {
                Ok(after) => r is Ok && final(self).metrics() == after,
                Err(e) => r is Err && r->Err_0@ == e,
            },
    {
        proof {
            use_type_invariant(&*self);
        }
        let ghost start = self.metrics();
        let ghost views = records_view(records@);
        let mut taken = Collector::new();
        core::mem::swap(self, &mut taken);
        let Collector { mut metrics, mut index, mut cache } = taken;
        let mut failure: Option<MergeError> = None;
        let mut i: usize = 0;
        while i < records.len() && failure.is_none()
            invariant
                i <= records.len(),
                views == records_view(records@),
                indexed(metric_names(metrics_view(metrics@)), index@),
                match failure {
                    None => absorb_records(start, class@, views, i as int) == Ok::<
                        Seq<MetricView>,
                        ErrorView,
                    >(metrics_view(metrics@)),
                    Some(e) => absorb_records(start, class@, views, records.len() as int) == Err::<
                        Seq<MetricView>,
                        ErrorView,
                    >(e@),
                },
            decreases records.len() - i + (if failure is None { 1int } else { 0int }),
        {
            assert(views[i as int] == records@[i as int]@);
            match absorb_record_into(&mut metrics, &mut index, &mut cache, class, &records[i]) {
                Ok(()) => {
                    i += 1;
                },
                Err(e) => {
                    proof {
                        assert(absorb_records(start, class@, views, i + 1) == Err::<
                            Seq<MetricView>,
                            ErrorView,
                        >(e@));
                        lemma_absorb_records_fails_on(
                            start,
                            class@,
                            views,
                            i + 1,
                            records.len() as int,
                        );
                    }
                    failure = Some(e);
                },
            }
        }
        *self = Collector { metrics, index, cache };
        match failure {
            Some(e) => Err(e),
            None => Ok(()),
        }
    }

    /// Takes one more file: its name is read, and what came of reading it is
    /// dealt with.
    ///
    /// A file that was not there leaves the metrics as they are where it is a
    /// gauge file of a live mode, and fails the merge, with the text of the
    /// failure, where it is any other file.
    pub fn absorb_file(&mut self, file: &SourceFile, order: ByteOrder) -> (r: Result<
        (),
        MergeError,
    >)
        ensures
            match absorb_file(old(self).metrics(), file@, order) {
                Ok(after) => r is Ok && final(self).metrics() == after,
                Err(e) => r is Err && r->Err_0@ == e,
            },
            is_missing_live_gauge(file@) ==> r is Ok && final(self).metrics() == old(
                self,
            ).metrics(),
            is_missing_other(file@) ==> r is Err && r->Err_0@ == ErrorView::IoFailure(
                file@.content->NotFound_0,
            ),
    {
        proof {
            reveal(absorb_file);
        }
        let class = match classify_file_name(file.name.as_str()) {
            Ok(class) => class,
            Err(e) => {
                return Err(e);
            },
        };
        match &file.content {
            FileContent::NotFound(text) => {
                if class.live {
                    Ok(())
                } else {
                    Err(MergeError::IoFailure(text.clone()))
                }
            },
            FileContent::Unreadable(text) => Err(MergeError::IoFailure(text.clone())),
            FileContent::Data(data) => {
                let records = match load_records(data, order) {
                    Ok(records) => records,
                    Err(e) => {
                        return Err(e);
                    },
                };
                self.absorb_records(&class, &records)
            },
        }
    }

    /// Hands out the metrics.
    pub fn into_metrics(self) -> (metrics: Vec<Metric>)
        ensures
            metrics_view(metrics@) == self.metrics(),
    {
        let Collector { metrics, index: _, cache: _ } = self;
        metrics
    }
}

/// Gathers the samples of the files by metric.
///
/// The outcome is that of taking the files in their order: the metrics with
/// their samples as they were read, or the failure of the first file that
/// fails.
pub fn read_multiprocess_files(files: &Vec<SourceFile>, order: ByteOrder) -> (r: Result<
    Vec<Metric>,
    MergeError,
>)
    ensures
        collected_as(r, collected(files_view(files@), order)),
{
    let ghost views = files_view(files@);
    let mut collector = Collector::new();
    let mut i: usize = 0;
    while i < files.len()
        invariant
            i <= files.len(),
            views == files_view(files@),
            absorb_files(Seq::empty(), views, order, i as int) == Ok::<Seq<MetricView>, ErrorView>(
                collector.metrics(),
            ),
        decreases files.len() - i,
    {
        assert(views[i as int] == files@[i as int]@);
        match collector.absorb_file(&files[i], order) {
            Ok(()) => {},
            Err(e) => {
                proof {
                    assert(absorb_files(Seq::empty(), views, order, i + 1) == Err::<
                        Seq<MetricView>,
                        ErrorView,
                    >(e@));
                    lemma_absorb_files_fails_on(
                        Seq::empty(),
                        views,
                        order,
                        i + 1,
                        files.len() as int,
                    );
                }
                return Err(e);
            },
        }
        i += 1;
    }
    Ok(collector.into_metrics())
}

} // verus!
