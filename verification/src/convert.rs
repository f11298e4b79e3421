//! A whole conversion run on sources that are in memory: read, attribute to
//! lifecycles, reorder if asked for, filter.
use vstd::prelude::*;
use crate::filter::kept;
use crate::filter::Filter;
use crate::lifecycle::attributed;
use crate::lifecycle::table_after;
use crate::lifecycle::Lifecycle;
use crate::lifecycle::LifecycleTracker;
use crate::options::OutputStyle;
use crate::reader::all_records;
use crate::reader::bytes_consumed;
use crate::reader::bytes_in;
use crate::reader::frames;
use crate::reader::frames_in;
use crate::reader::all_framed;
use crate::reader::renumbered;
use crate::reader::lemma_one_source;
use crate::reader::lemma_scan_all_frames_only;
use crate::reader::lemma_scan_all_frames;
use crate::reader::frame_sources;
use crate::reader::records_in;
use crate::reader::lemma_scan_frames;
use crate::lifecycle::lemma_three_then_reset;
use crate::lifecycle::boot_time;
use crate::lifecycle::lemma_attributed_to_own_device;
use crate::frame::reread;
use crate::reader::byte_views;
use crate::reader::offsets;
use crate::reader::outcome_views;
use crate::reader::read_sources;
use crate::reader::scan_all;
use crate::reader::ReadOutcome;
use crate::reader::ScanView;
use crate::record::views;
use crate::record::RecordView;
use crate::record::TraceRecord;
use crate::reorder::reorder;
use crate::reorder::run;

verus! {

/// The span of time that the reorder buffer covers unless told otherwise: two
/// seconds, in microseconds.
pub const DEFAULT_WINDOW_MICROS: u64 = 2000000;

/// The number of lifecycles that the reorder buffer holds records of unless
/// told otherwise.
pub const DEFAULT_MAX_LIFECYCLES: usize = 3;

/// How far a device timestamp may fall back within a lifecycle unless told
/// otherwise: ten ticks, which is one millisecond and allows for the
/// resolution of the device clock.
pub const DEFAULT_TOLERANCE_TICKS: u32 = 10;

/// What a conversion run is asked for.
#[derive(Debug, PartialEq, Eq)]
pub struct ConvertOptions {
    pub output_style: OutputStyle,
    pub sort_by_time: bool,
    pub index_first: u32,
    pub index_last: u32,
    /// The lifecycles that pass; if there is none, all do.
    pub lifecycle_ids: Vec<u32>,
    pub tolerance: u32,
    pub window: u64,
    pub max_lifecycles: usize,
}

/// What reading one source came to.
#[derive(Debug, PartialEq, Eq)]
pub struct SourceSummary {
    /// Number of records read from the source.
    pub records: usize,
    /// The offset of every byte that was skipped.
    pub skipped: Vec<usize>,
    /// Offset at which reading stopped.
    pub consumed: usize,
}

/// What a conversion run gave.
#[derive(Debug, PartialEq, Eq)]
pub struct ConvertReport {
    /// The records that passed the filter, in the order of the output.
    pub output: Vec<TraceRecord>,
    /// All lifecycles, in the order of their ids.
    pub lifecycles: Vec<Lifecycle>,
    /// One summary for every source, in the order of the sources.
    pub sources: Vec<SourceSummary>,
    /// Number of records read from all sources.
    pub number_messages: u32,
    /// Number of bytes read from all sources, frames and skipped bytes; it
    /// stops at the largest number it can hold.
    pub bytes_processed: u64,
}

/// All records of the sources with the index of their reading.
pub open spec fn records_read(sources: Seq<Seq<u8>>) -> Seq<RecordView> {
    all_records(scan_all(sources, 0))
}

/// The records that a run hands to the sink.
pub open spec fn output_of(sources: Seq<Seq<u8>>, options: ConvertOptions) -> Seq<RecordView> {
    let attributed = attributed(records_read(sources), Seq::empty(), options.tolerance);
    let ordered = if options.sort_by_time {
        run(attributed, Seq::empty(), options.window, options.max_lifecycles)
    } else {
        attributed
    };
    kept(ordered, options.index_first, options.index_last, options.lifecycle_ids@.to_set())
}

/// The number `n`, or the largest that 64 bits hold if `n` is greater.
pub open spec fn clipped(n: int) -> u64 {
    if n > u64::MAX {
        u64::MAX
    } else {
        n as u64
    }
}

/// Whether `summary` says what the scan of a source came to.
pub open spec fn sums_up(summary: SourceSummary, scan: ScanView) -> bool {
    &&& summary.records == scan.records.len()
    &&& offsets(summary.skipped@) == scan.skipped
    &&& summary.consumed == scan.consumed
}

/// The default options: every record passes in the order of arrival, and
/// nothing is shown.
pub fn default_options() -> (options: ConvertOptions)
    ensures
        options.output_style == OutputStyle::Silent,
        !options.sort_by_time,
        options.index_first == 0,
        options.index_last == u32::MAX,
        options.lifecycle_ids@ == Seq::<u32>::empty(),
        options.tolerance == DEFAULT_TOLERANCE_TICKS,
        options.window == DEFAULT_WINDOW_MICROS,
        options.max_lifecycles == DEFAULT_MAX_LIFECYCLES,
{
    ConvertOptions {
        output_style: OutputStyle::Silent,
        sort_by_time: false,
        index_first: 0,
        index_last: u32::MAX,
        lifecycle_ids: Vec::new(),
        tolerance: DEFAULT_TOLERANCE_TICKS,
        window: DEFAULT_WINDOW_MICROS,
        max_lifecycles: DEFAULT_MAX_LIFECYCLES,
    }
}

/// Puts the records of all outcomes in one sequence and keeps a summary of
/// each outcome.
fn gather(outcomes: Vec<ReadOutcome>) -> (gathered: (Vec<TraceRecord>, Vec<SourceSummary>, u64))
    ensures
        views(gathered.0@) == all_records(outcome_views(outcomes@)),
        gathered.1@.len() == outcomes@.len(),
        forall|i: int|
            0 <= i < outcomes@.len() ==> sums_up(#[trigger] gathered.1@[i], outcomes@[i]@),
        gathered.2 == clipped(bytes_consumed(outcome_views(outcomes@))),
{
    let mut all: Vec<TraceRecord> = Vec::new();
    let mut summaries: Vec<SourceSummary> = Vec::new();
    let mut bytes: u64 = 0;
    let ghost input = outcome_views(outcomes@);
    assert(views(all@) =~= all_records(input.take(0)));
    for outcome in iter: outcomes
        invariant
            input == outcome_views(iter.seq()),
            views(all@) == all_records(input.take(iter.index() as int)),
            bytes_consumed(input.take(iter.index() as int)) >= 0,
            bytes == clipped(bytes_consumed(input.take(iter.index() as int))),
            summaries@.len() == iter.index(),
            forall|i: int|
                0 <= i < iter.index() ==> sums_up(#[trigger] summaries@[i], iter.seq()[i]@),
    {
        let ghost i = iter.index() as int;
        let ghost before = views(all@);
        assert(input.take(i + 1).drop_last() =~= input.take(i));
        assert(input.take(i + 1).last() == outcome@);
        let count: usize = outcome.records.len();
        let consumed: usize = outcome.consumed;
        bytes = if bytes > u64::MAX - (consumed as u64) {
            u64::MAX
        } else {
            bytes + (consumed as u64)
        };
        let mut records: Vec<TraceRecord> = outcome.records;
        let ghost now = views(records@);
        all.append(&mut records);
        assert(views(all@) =~= before + now);
        summaries.push(SourceSummary { records: count, skipped: outcome.skipped, consumed });
    }
    assert(input.take(input.len() as int) =~= input);
    (all, summaries, bytes)
}

/// Converts the sources, which are read in the order given.
///
/// Every record is read, gets its index and its lifecycle; with
/// `sort_by_time` the records then go through the reorder buffer; those that
/// pass the filter are the output.
pub fn convert(sources: &Vec<Vec<u8>>, options: &ConvertOptions) -> (report: ConvertReport)
    ensures
        views(report.output@) == output_of(byte_views(sources@), *options),
        report.lifecycles@ == table_after(
            records_read(byte_views(sources@)),
            Seq::empty(),
            options.tolerance,
        ),
        report.number_messages == records_read(byte_views(sources@)).len(),
        report.bytes_processed == clipped(bytes_consumed(scan_all(byte_views(sources@), 0))),
        report.sources@.len() == sources@.len(),
        forall|i: int|
            0 <= i < sources@.len() ==> sums_up(
                #[trigger] report.sources@[i],
                scan_all(byte_views(sources@), 0)[i],
            ),
{
    let outcomes = read_sources(sources, 0);
    let ghost scans = outcome_views(outcomes@);
    let (all, summaries, bytes_processed) = gather(outcomes);
    let number_messages: u32 = all.len() as u32;
    let mut tracker = LifecycleTracker::new(options.tolerance);
    let attributed = tracker.assign_all(all);
    let lifecycles = tracker.published_lifecycles();
    let ordered = if options.sort_by_time {
        reorder(attributed, options.window, options.max_lifecycles)
    } else {
        attributed
    };
    let filter = Filter::new(options.index_first, options.index_last, &options.lifecycle_ids);
    let output = filter.apply(ordered);
    ConvertReport { output, lifecycles, sources: summaries, number_messages, bytes_processed }
}

/// Sources that are frames and nothing else are read completely: the run
/// counts one record for every frame and every byte of every source, and
/// skips nothing.
pub proof fn lemma_convert_frames_only(sources: Seq<Seq<u8>>)
    requires
        frames_in(sources) is Some,
        frames_in(sources).unwrap() <= u32::MAX,
    ensures
        records_read(sources).len() == frames_in(sources).unwrap(),
        bytes_consumed(scan_all(sources, 0)) == bytes_in(sources),
        bytes_in(sources) <= u64::MAX ==> clipped(bytes_consumed(scan_all(sources, 0))) == bytes_in(
            sources,
        ),
        scan_all(sources, 0).len() == sources.len(),
        forall|i: int|
            0 <= i < sources.len() ==> (#[trigger] scan_all(sources, 0)[i]).skipped == Seq::<
                int,
            >::empty() && scan_all(sources, 0)[i].consumed == sources[i].len(),
{
    lemma_scan_all_frames_only(sources, 0);
}

/// Sources that hold the frames of records and nothing else give the record
/// of every frame, in the order of the sources and of the frames in them,
/// numbered from zero; every byte is counted and none is skipped.
pub proof fn lemma_convert_frames(lists: Seq<Seq<RecordView>>)
    requires
        forall|i: int| 0 <= i < lists.len() ==> all_framed(#[trigger] lists[i]),
        records_in(lists).len() <= u32::MAX,
    ensures
        records_read(frame_sources(lists)) == renumbered(records_in(lists), 0),
        records_read(frame_sources(lists)).len() == records_in(lists).len(),
        bytes_consumed(scan_all(frame_sources(lists), 0)) == bytes_in(frame_sources(lists)),
        forall|i: int|
            0 <= i < lists.len() ==> (#[trigger] scan_all(frame_sources(lists), 0)[i]).skipped
                == Seq::<int>::empty(),
{
    lemma_scan_all_frames(lists, 0);
}

/// One source with three frames of one device with rising device timestamps
/// and then a frame whose device timestamp is zero gives two lifecycles,
/// whatever the tolerance: the first with the three records, the second with
/// the fourth and a start at the reception time of that record.
pub proof fn lemma_convert_three_then_reset(
    r1: RecordView,
    r2: RecordView,
    r3: RecordView,
    r4: RecordView,
    tolerance: u32,
)
    requires
        all_framed(seq![r1, r2, r3, r4]),
        r1.ecu_id == r2.ecu_id == r3.ecu_id == r4.ecu_id,
        r1.device_timestamp < r2.device_timestamp < r3.device_timestamp,
        r4.device_timestamp == 0,
    ensures
        ({
            let sources = seq![frames(seq![r1, r2, r3, r4])];
            let table = table_after(records_read(sources), Seq::empty(), tolerance);
            let out = attributed(records_read(sources), Seq::empty(), tolerance);
            &&& table.len() == 2
            &&& table[0].id == 1 && table[1].id == 2
            &&& table[0].ecu_id == r1.ecu_id && table[1].ecu_id == r1.ecu_id
            &&& table[0].message_count == 3 && table[1].message_count == 1
            &&& table[0].start_time == boot_time(r1)
            &&& table[1].start_time == r4.reception_time
            &&& table[0].start_time <= table[0].end_time
            &&& table[1].start_time <= table[1].end_time
            &&& out.len() == 4
            &&& out[0].lifecycle_id == Some(1u32) && out[0].index == 0
            &&& out[1].lifecycle_id == Some(1u32) && out[1].index == 1
            &&& out[2].lifecycle_id == Some(1u32) && out[2].index == 2
            &&& out[3].lifecycle_id == Some(2u32) && out[3].index == 3
        }),
{
    let records = seq![r1, r2, r3, r4];
    let source = frames(records);
    assert(source.skip(0) =~= source);
    lemma_scan_frames(source, 0, records, 0);
    lemma_one_source(source, 0);
    let read = renumbered(records, 0);
    assert(records_read(seq![source]) == read);
    assert(read =~= seq![read[0], read[1], read[2], read[3]]);
    assert(read[0] == reread(r1, 0) && read[1] == reread(r2, 1) && read[2] == reread(r3, 2)
        && read[3] == reread(r4, 3));
    lemma_three_then_reset(read[0], read[1], read[2], read[3], tolerance);
    let none = Seq::<Lifecycle>::empty();
    lemma_attributed_to_own_device(read, none, tolerance, 0);
    lemma_attributed_to_own_device(read, none, tolerance, 1);
    lemma_attributed_to_own_device(read, none, tolerance, 2);
    lemma_attributed_to_own_device(read, none, tolerance, 3);
    assert(boot_time(read[0]) == boot_time(r1));
}

} // verus!
