//! The stream reader: turns the bytes of a source into trace records and
//! finds the next frame again, byte by byte, after bytes that are none.
use vstd::prelude::*;
use vstd::slice::slice_subrange;
use vstd::slice::slice_to_vec;
use crate::frame::encodable;
use crate::frame::encoded;
use crate::frame::fields_consistent;
use crate::frame::lemma_parse_encoded;
use crate::frame::lemma_parse_prefix;
use crate::frame::parse_frame;
use crate::frame::parsed;
use crate::frame::reread;
use crate::frame::FrameError;
use crate::record::lemma_views_push;
use crate::record::views;
use crate::record::RecordView;
use crate::record::TraceRecord;

verus! {

/// What reading one source gave.
#[derive(Debug, PartialEq, Eq)]
pub struct ReadOutcome {
    /// The records of the source, in the order of their frames.
    pub records: Vec<TraceRecord>,
    /// The offset of every byte that was skipped because no frame starts there.
    pub skipped: Vec<usize>,
    /// Offset at which reading stopped: all bytes before it belong to a frame
    /// or were skipped.
    pub consumed: usize,
    /// The index that the next record of a following source gets.
    pub next_index: u32,
}

/// The mathematical value of a [`ReadOutcome`].
pub struct ScanView {
    pub records: Seq<RecordView>,
    pub skipped: Seq<int>,
    pub consumed: int,
}

impl View for ReadOutcome {
    type V = ScanView;

    open spec fn view(&self) -> ScanView {
        ScanView {
            records: views(self.records@),
            skipped: offsets(self.skipped@),
            consumed: self.consumed as int,
        }
    }
}

/// The offsets as integers.
pub open spec fn offsets(skipped: Seq<usize>) -> Seq<int> {
    Seq::new(skipped.len(), |i: int| skipped[i] as int)
}

/// Reading `s` from offset `pos` on, the next record getting `index`.
///
/// A frame at `pos` gives a record and reading goes on behind it; bytes that
/// cannot start a frame cost one byte; reading stops where the rest of `s` is
/// no whole frame, or when no index is left to give.
pub open spec fn scan(s: Seq<u8>, pos: int, index: int) -> ScanView
    decreases s.len() - pos,
{
    if 0 <= pos <= s.len() && 0 <= index < u32::MAX {
        match parsed(s.skip(pos), index as u32) {
            Ok((n, record)) => {
                let rest = scan(s, pos + n, index + 1);
                ScanView {
                    records: seq![record] + rest.records,
                    skipped: rest.skipped,
                    consumed: rest.consumed,
                }
            },
            Err(FrameError::Malformed) => {
                let rest = scan(s, pos + 1, index);
                ScanView {
                    records: rest.records,
                    skipped: seq![pos] + rest.skipped,
                    consumed: rest.consumed,
                }
            },
            Err(FrameError::Incomplete) => ScanView {
                records: Seq::empty(),
                skipped: Seq::empty(),
                consumed: pos,
            },
        }
    } else {
        ScanView { records: Seq::empty(), skipped: Seq::empty(), consumed: pos }
    }
}

/// Reads all records of one source. The first record gets `first_index`, each
/// following one the next index, whatever was skipped in between.
pub fn read_source(data: &[u8], first_index: u32) -> (out: ReadOutcome)
    ensures
        out@ == scan(data@, 0, first_index as int),
        out.next_index == first_index + out.records@.len(),
        out.consumed <= data@.len(),
        forall|i: int|
            0 <= i < out.records@.len() ==> (#[trigger] out.records@[i]).index == first_index + i,
{
    let mut records: Vec<TraceRecord> = Vec::new();
    let mut skipped: Vec<usize> = Vec::new();
    let mut pos: usize = 0;
    let mut index: u32 = first_index;
    let ghost whole = scan(data@, 0, first_index as int);
    let mut done: bool = false;
    assert(views(records@) + scan(data@, 0, first_index as int).records =~= whole.records);
    assert(offsets(skipped@) + scan(data@, 0, first_index as int).skipped =~= whole.skipped);
    while !done
        invariant
            pos <= data@.len(),
            data@.len() == data.len(),
            index == first_index + records@.len(),
            whole == scan(data@, 0, first_index as int),
            whole.records == views(records@) + scan(data@, pos as int, index as int).records,
            whole.skipped == offsets(skipped@) + scan(data@, pos as int, index as int).skipped,
            whole.consumed == scan(data@, pos as int, index as int).consumed,
            done ==> scan(data@, pos as int, index as int) == (ScanView {
                records: Seq::empty(),
                skipped: Seq::empty(),
                consumed: pos as int,
            }),
            forall|i: int|
                0 <= i < records@.len() ==> (#[trigger] records@[i]).index == first_index + i,
        decreases data@.len() - pos + (if done { 0int } else { 1int }),
    {
        if index == u32::MAX {
            done = true;
        } else {
            let rest = slice_subrange(data, pos, data.len());
            assert(rest@ == data@.skip(pos as int));
            let ghost before = scan(data@, pos as int, index as int);
            match parse_frame(rest, index) {
                Ok((n, record)) => {
                    proof {
                        lemma_views_push(records@, record);
                        let after = scan(data@, pos + n, index + 1);
                        assert(views(records@.push(record)) + after.records =~= views(records@)
                            + before.records);
                    }
                    records.push(record);
                    pos = pos + n;
                    index = index + 1;
                },
                Err(FrameError::Malformed) => {
                    proof {
                        let after = scan(data@, pos + 1, index as int);
                        assert(offsets(skipped@.push(pos)) + after.skipped =~= offsets(skipped@)
                            + before.skipped);
                    }
                    skipped.push(pos);
                    pos = pos + 1;
                },
                Err(FrameError::Incomplete) => {
                    done = true;
                },
            }
        }
    }
    proof {
        assert(views(records@) + Seq::<RecordView>::empty() =~= views(records@));
        assert(offsets(skipped@) + Seq::<int>::empty() =~= offsets(skipped@));
    }
    ReadOutcome { records, skipped, consumed: pos, next_index: index }
}

/// The bytes of every source.
pub open spec fn byte_views(sources: Seq<Vec<u8>>) -> Seq<Seq<u8>> {
    Seq::new(sources.len(), |i: int| sources[i]@)
}

/// The values of the outcomes, one for one.
pub open spec fn outcome_views(outcomes: Seq<ReadOutcome>) -> Seq<ScanView> {
    Seq::new(outcomes.len(), |i: int| outcomes[i]@)
}

/// Reading the sources one after the other: each is read from its start, and
/// its first record gets the index that follows the last one given before.
pub open spec fn scan_all(sources: Seq<Seq<u8>>, index: int) -> Seq<ScanView>
    decreases sources.len(),
{
    if sources.len() == 0 {
        Seq::empty()
    } else {
        let first = scan(sources[0], 0, index);
        seq![first] + scan_all(sources.drop_first(), index + first.records.len())
    }
}

/// All records of the outcomes, in the order of the sources.
pub open spec fn all_records(outcomes: Seq<ScanView>) -> Seq<RecordView>
    decreases outcomes.len(),
{
    if outcomes.len() == 0 {
        Seq::empty()
    } else {
        all_records(outcomes.drop_last()) + outcomes.last().records
    }
}

/// Reads the sources in the order given. A source that ends in the middle
/// of a frame is left there, and reading goes on with the next source.
pub fn read_sources(sources: &Vec<Vec<u8>>, first_index: u32) -> (outcomes: Vec<ReadOutcome>)
    ensures
        outcome_views(outcomes@) == scan_all(byte_views(sources@), first_index as int),
        outcomes@.len() == sources@.len(),
        first_index + all_records(outcome_views(outcomes@)).len() <= u32::MAX,
        forall|i: int|
            0 <= i < outcomes@.len() ==> (#[trigger] outcomes@[i]).next_index == (if i == 0 {
                first_index
            } else {
                outcomes@[i - 1].next_index
            }) + outcomes@[i].records@.len(),
{
    let mut outcomes: Vec<ReadOutcome> = Vec::new();
    let mut index: u32 = first_index;
    let mut i: usize = 0;
    let ghost input = byte_views(sources@);
    let ghost whole = scan_all(input, first_index as int);
    assert(input.skip(0) =~= input);
    assert(outcome_views(outcomes@) + whole =~= whole);
    while i < sources.len()
        invariant
            i <= sources@.len(),
            outcomes@.len() == i,
            index == first_index + all_records(outcome_views(outcomes@)).len(),
            index == (if i == 0 {
                first_index
            } else {
                outcomes@[i - 1].next_index
            }),
            forall|j: int|
                0 <= j < i ==> (#[trigger] outcomes@[j]).next_index == (if j == 0 {
                    first_index
                } else {
                    outcomes@[j - 1].next_index
                }) + outcomes@[j].records@.len(),
            input == byte_views(sources@),
            whole == outcome_views(outcomes@) + scan_all(input.skip(i as int), index as int),
        decreases sources@.len() - i,
    {
        let ghost before = outcome_views(outcomes@);
        let outcome = read_source(sources[i].as_slice(), index);
        proof {
            let later = scan_all(input.skip(i + 1), index + outcome@.records.len());
            assert(scan_all(input.skip(i as int), index as int) == seq![outcome@] + later) by {
                assert(input.skip(i as int)[0] == sources@[i as int]@);
                assert(input.skip(i as int).drop_first() =~= input.skip(i + 1));
            }
            assert(outcome_views(outcomes@.push(outcome)) == before.push(outcome@)) by {
                assert(outcome_views(outcomes@.push(outcome)) =~= before.push(outcome@));
            }
            assert(all_records(before.push(outcome@)) == all_records(before)
                + outcome@.records) by {
                assert(before.push(outcome@).drop_last() =~= before);
            }
            assert(before.push(outcome@) + later == before + (seq![outcome@] + later)) by {
                assert(before.push(outcome@) + later =~= before + (seq![outcome@] + later));
            }
        }
        index = outcome.next_index;
        outcomes.push(outcome);
        i = i + 1;
    }
    assert(outcome_views(outcomes@) + Seq::<ScanView>::empty() =~= outcome_views(outcomes@));
    outcomes
}

/// The records of a scan carry consecutive indices from the first one on:
/// no index is left out and none is given twice, whatever was skipped.
pub proof fn lemma_scan_indices(s: Seq<u8>, pos: int, index: int)
    ensures
        forall|i: int|
            0 <= i < scan(s, pos, index).records.len() ==> (#[trigger] scan(
                s,
                pos,
                index,
            ).records[i]).index == index + i,
        index + scan(s, pos, index).records.len() <= u32::MAX || scan(s, pos, index).records.len()
            == 0,
    decreases s.len() - pos,
{
    if 0 <= pos <= s.len() && 0 <= index < u32::MAX {
        match parsed(s.skip(pos), index as u32) {
            Ok((n, record)) => {
                lemma_scan_indices(s, pos + n, index + 1);
                let rest = scan(s, pos + n, index + 1);
                assert forall|i: int| 0 <= i < scan(s, pos, index).records.len() implies (
                #[trigger] scan(s, pos, index).records[i]).index == index + i by {
                    if i > 0 {
                        assert(scan(s, pos, index).records[i] == rest.records[i - 1]);
                    }
                }
            },
            Err(FrameError::Malformed) => {
                lemma_scan_indices(s, pos + 1, index);
            },
            Err(FrameError::Incomplete) => {},
        }
    }
}

/// The records of outcomes set one behind the other are the records of the
/// first and then those of the second.
proof fn lemma_all_records_concat(a: Seq<ScanView>, b: Seq<ScanView>)
    ensures
        all_records(a + b) == all_records(a) + all_records(b),
    decreases b.len(),
{
    if b.len() == 0 {
        assert(a + b =~= a);
        assert(all_records(a) + all_records(b) =~= all_records(a));
    } else {
        lemma_all_records_concat(a, b.drop_last());
        assert((a + b).drop_last() =~= a + b.drop_last());
        assert(all_records(a + b) =~= all_records(a) + all_records(b));
    }
}

/// Over all sources the records carry consecutive indices from the first one
/// on: a following source goes on where the one before it stopped.
pub proof fn lemma_scan_all_indices(sources: Seq<Seq<u8>>, index: int)
    requires
        0 <= index,
    ensures
        forall|i: int|
            0 <= i < all_records(scan_all(sources, index)).len() ==> (#[trigger] all_records(
                scan_all(sources, index),
            )[i]).index == index + i,
    decreases sources.len(),
{
    if sources.len() > 0 {
        let first = scan(sources[0], 0, index);
        let rest = scan_all(sources.drop_first(), index + first.records.len());
        lemma_scan_indices(sources[0], 0, index);
        lemma_scan_all_indices(sources.drop_first(), index + first.records.len());
        lemma_all_records_concat(seq![first], rest);
        lemma_single(first);
        let all = all_records(scan_all(sources, index));
        assert forall|i: int| 0 <= i < all.len() implies (#[trigger] all[i]).index == index + i by {
            if i >= first.records.len() {
                assert(all[i] == all_records(rest)[i - first.records.len()]);
            } else {
                assert(all[i] == first.records[i]);
            }
        }
    }
}

/// What was read first, and then what was read from where that stopped.
pub open spec fn joined(first: ScanView, then: ScanView) -> ScanView {
    ScanView {
        records: first.records + then.records,
        skipped: first.skipped + then.skipped,
        consumed: then.consumed,
    }
}

/// The scan with every offset moved up by `base`.
pub open spec fn moved(scan: ScanView, base: int) -> ScanView {
    ScanView {
        records: scan.records,
        skipped: Seq::new(scan.skipped.len(), |i: int| scan.skipped[i] + base),
        consumed: scan.consumed + base,
    }
}

/// A stream can be read in pieces: reading a stream that has grown gives
/// what reading it before gave, and then what reading gives from where it
/// stopped before.
pub proof fn lemma_scan_grown(s: Seq<u8>, more: Seq<u8>, pos: int, index: int)
    requires
        0 <= pos <= s.len(),
    ensures
        scan(s + more, pos, index) == joined(
            scan(s, pos, index),
            scan(
                s + more,
                scan(s, pos, index).consumed,
                index + scan(s, pos, index).records.len(),
            ),
        ),
    decreases s.len() - pos,
{
    let before = scan(s, pos, index);
    let whole = scan(s + more, pos, index);
    let then = scan(s + more, before.consumed, index + before.records.len());
    if 0 <= index < u32::MAX {
        assert((s + more).skip(pos) =~= s.skip(pos) + more);
        match parsed(s.skip(pos), index as u32) {
            Ok((n, record)) => {
                lemma_parse_prefix(s.skip(pos), more, index as u32);
                lemma_scan_grown(s, more, pos + n, index + 1);
                let rest = scan(s, pos + n, index + 1);
                assert(whole.records =~= (seq![record] + rest.records) + then.records);
                assert(whole == joined(before, then));
            },
            Err(FrameError::Malformed) => {
                lemma_parse_prefix(s.skip(pos), more, index as u32);
                lemma_scan_grown(s, more, pos + 1, index);
                let rest = scan(s, pos + 1, index);
                assert(whole.skipped =~= (seq![pos] + rest.skipped) + then.skipped);
                assert(whole == joined(before, then));
            },
            Err(FrameError::Incomplete) => {
                assert(whole.records =~= before.records + then.records);
                assert(whole.skipped =~= before.skipped + then.skipped);
            },
        }
    } else {
        assert(whole.records =~= before.records + then.records);
        assert(whole.skipped =~= before.skipped + then.skipped);
    }
}

/// Reading from an offset on is reading the rest of the stream from its
/// start, with every offset counted from there.
pub proof fn lemma_scan_rest(s: Seq<u8>, base: int, pos: int, index: int)
    requires
        0 <= base,
        0 <= pos,
        base + pos <= s.len(),
    ensures
        scan(s, base + pos, index) == moved(scan(s.skip(base), pos, index), base),
    decreases s.len() - base - pos,
{
    let rest = s.skip(base);
    let here = scan(s, base + pos, index);
    let there = scan(rest, pos, index);
    assert(rest.skip(pos) =~= s.skip(base + pos));
    if 0 <= index < u32::MAX {
        match parsed(rest.skip(pos), index as u32) {
            Ok((n, record)) => {
                lemma_scan_rest(s, base, pos + n, index + 1);
                assert(here.skipped =~= moved(there, base).skipped);
            },
            Err(FrameError::Malformed) => {
                lemma_scan_rest(s, base, pos + 1, index);
                assert(here.skipped =~= moved(there, base).skipped);
            },
            Err(FrameError::Incomplete) => {
                assert(here.skipped =~= moved(there, base).skipped);
            },
        }
    } else {
        assert(here.skipped =~= moved(there, base).skipped);
    }
}

/// Reading a stream that has grown is reading it as it was, and then reading
/// the rest, old bytes that were left and new ones, from its start on.
pub proof fn lemma_scan_in_pieces(s: Seq<u8>, more: Seq<u8>, index: int)
    ensures
        scan(s + more, 0, index) == joined(
            scan(s, 0, index),
            moved(
                scan(
                    (s + more).skip(scan(s, 0, index).consumed),
                    0,
                    index + scan(s, 0, index).records.len(),
                ),
                scan(s, 0, index).consumed,
            ),
        ),
{
    let before = scan(s, 0, index);
    lemma_scan_consumed(s, 0, index);
    lemma_scan_grown(s, more, 0, index);
    lemma_scan_rest(s + more, before.consumed, 0, index + before.records.len());
}

/// Reading stops within the stream, at or behind the offset it began at.
pub proof fn lemma_scan_consumed(s: Seq<u8>, pos: int, index: int)
    requires
        0 <= pos <= s.len(),
    ensures
        pos <= scan(s, pos, index).consumed <= s.len(),
    decreases s.len() - pos,
{
    if 0 <= index < u32::MAX {
        match parsed(s.skip(pos), index as u32) {
            Ok((n, record)) => {
                lemma_scan_consumed(s, pos + n, index + 1);
            },
            Err(FrameError::Malformed) => {
                lemma_scan_consumed(s, pos + 1, index);
            },
            Err(FrameError::Incomplete) => {},
        }
    }
}

/// A reader for a source that comes in pieces: it keeps the bytes that are
/// no whole frame yet until more bytes follow.
pub struct StreamReader {
    pending: Vec<u8>,
    next_index: u32,
}

impl StreamReader {
    /// The bytes that were fed and belong to no record yet.
    pub closed spec fn pending(&self) -> Seq<u8> {
        self.pending@
    }

    /// The index that the next record gets.
    pub closed spec fn next_index(&self) -> u32 {
        self.next_index
    }

    /// A reader that has nothing pending and gives `first_index` first.
    pub fn new(first_index: u32) -> (reader: StreamReader)
        ensures
            reader.pending() == Seq::<u8>::empty(),
            reader.next_index() == first_index,
    {
        StreamReader { pending: Vec::new(), next_index: first_index }
    }

    /// Number of bytes that are pending.
    pub fn pending_len(&self) -> (n: usize)
        ensures
            n == self.pending().len(),
    {
        self.pending.len()
    }

    /// The index that the next record gets.
    pub fn index(&self) -> (index: u32)
        ensures
            index == self.next_index(),
    {
        self.next_index
    }

    /// Takes the next piece of the source and reads what is pending with it.
    /// The offsets of the outcome count from the first pending byte; what
    /// was not consumed stays pending.
    pub fn feed(&mut self, piece: &[u8]) -> (out: ReadOutcome)
        ensures
            out@ == scan(old(self).pending() + piece@, 0, old(self).next_index() as int),
            out.next_index == old(self).next_index() + out.records@.len(),
            final(self).next_index() == out.next_index,
            final(self).pending() == (old(self).pending() + piece@).skip(out.consumed as int),
    {
        let mut more: Vec<u8> = slice_to_vec(piece);
        self.pending.append(&mut more);
        let out = read_source(self.pending.as_slice(), self.next_index);
        let rest: Vec<u8> = self.pending.split_off(out.consumed);
        self.pending = rest;
        self.next_index = out.next_index;
        assert(self.pending@ =~= (old(self).pending() + piece@).skip(out.consumed as int));
        out
    }
}

/// The number of frames from `pos` on, if the stream is frames from there to
/// its end with nothing before, between or behind them.
pub open spec fn frames_only(s: Seq<u8>, pos: int) -> Option<nat>
    decreases s.len() - pos,
{
    if pos == s.len() {
        Some(0)
    } else if 0 <= pos < s.len() {
        match parsed(s.skip(pos), 0) {
            Ok((n, record)) => match frames_only(s, pos + n) {
                Some(count) => Some(count + 1),
                None => None,
            },
            Err(e) => None,
        }
    } else {
        None
    }
}

/// A stream of frames and nothing else is read completely, as long as there
/// are indices: one record for every frame, no byte skipped, every byte
/// consumed.
pub proof fn lemma_scan_frames_only(s: Seq<u8>, pos: int, index: int)
    requires
        frames_only(s, pos) is Some,
        0 <= index,
        index + frames_only(s, pos).unwrap() <= u32::MAX,
    ensures
        scan(s, pos, index).records.len() == frames_only(s, pos).unwrap(),
        scan(s, pos, index).skipped == Seq::<int>::empty(),
        scan(s, pos, index).consumed == s.len(),
    decreases s.len() - pos,
{
    if pos < s.len() {
        match parsed(s.skip(pos), 0) {
            Ok((n, record)) => {
                assert(parsed(s.skip(pos), index as u32) is Ok);
                assert(parsed(s.skip(pos), index as u32).unwrap().0 == n);
                lemma_scan_frames_only(s, pos + n, index + 1);
            },
            Err(e) => {},
        }
    }
}

/// The bytes that the scans consumed in all.
pub open spec fn bytes_consumed(scans: Seq<ScanView>) -> int
    decreases scans.len(),
{
    if scans.len() == 0 {
        0
    } else {
        bytes_consumed(scans.drop_last()) + scans.last().consumed
    }
}

/// The number of frames in all sources, if every source is frames from its
/// start to its end and nothing else.
pub open spec fn frames_in(sources: Seq<Seq<u8>>) -> Option<nat>
    decreases sources.len(),
{
    if sources.len() == 0 {
        Some(0)
    } else {
        match (frames_only(sources[0], 0), frames_in(sources.drop_first())) {
            (Some(first), Some(rest)) => Some(first + rest),
            _ => None,
        }
    }
}

/// The number of bytes in all sources.
pub open spec fn bytes_in(sources: Seq<Seq<u8>>) -> nat
    decreases sources.len(),
{
    if sources.len() == 0 {
        0
    } else {
        sources[0].len() + bytes_in(sources.drop_first())
    }
}

/// The bytes consumed by scans set one behind the other are those of the
/// first and those of the second.
proof fn lemma_bytes_consumed_concat(a: Seq<ScanView>, b: Seq<ScanView>)
    ensures
        bytes_consumed(a + b) == bytes_consumed(a) + bytes_consumed(b),
    decreases b.len(),
{
    if b.len() == 0 {
        assert(a + b =~= a);
    } else {
        lemma_bytes_consumed_concat(a, b.drop_last());
        assert((a + b).drop_last() =~= a + b.drop_last());
    }
}

/// The records and the bytes of one scan alone.
proof fn lemma_single(first: ScanView)
    ensures
        all_records(seq![first]) == first.records,
        bytes_consumed(seq![first]) == first.consumed,
{
    assert(seq![first].drop_last() =~= Seq::<ScanView>::empty());
    assert(seq![first].last() == first);
    assert(all_records(Seq::<ScanView>::empty()) =~= Seq::<RecordView>::empty());
    assert(all_records(seq![first]) == all_records(seq![first].drop_last()) + first.records);
    assert(all_records(seq![first]) =~= first.records);
    assert(bytes_consumed(seq![first]) == bytes_consumed(seq![first].drop_last())
        + first.consumed);
}

/// The records of a single source are those of its scan.
pub proof fn lemma_one_source(s: Seq<u8>, index: int)
    ensures
        all_records(scan_all(seq![s], index)) == scan(s, 0, index).records,
{
    let first = scan(s, 0, index);
    let sources = seq![s];
    assert(sources.drop_first() =~= Seq::<Seq<u8>>::empty());
    assert(scan_all(sources.drop_first(), index + first.records.len()) =~= Seq::<ScanView>::empty());
    assert(scan_all(sources, index) =~= seq![first]);
    lemma_single(first);
}

/// Sources that are frames and nothing else are read completely, as long as
/// there are indices: over all sources there is one record for every frame,
/// in no source a byte is skipped, and of every source every byte is
/// consumed.
pub proof fn lemma_scan_all_frames_only(sources: Seq<Seq<u8>>, index: int)
    requires
        frames_in(sources) is Some,
        0 <= index,
        index + frames_in(sources).unwrap() <= u32::MAX,
    ensures
        scan_all(sources, index).len() == sources.len(),
        all_records(scan_all(sources, index)).len() == frames_in(sources).unwrap(),
        bytes_consumed(scan_all(sources, index)) == bytes_in(sources),
        forall|i: int|
            0 <= i < sources.len() ==> (#[trigger] scan_all(sources, index)[i]).skipped == Seq::<
                int,
            >::empty() && scan_all(sources, index)[i].consumed == sources[i].len(),
    decreases sources.len(),
{
    if sources.len() == 0 {
        assert(all_records(scan_all(sources, index)) =~= Seq::<RecordView>::empty());
    } else {
        let first = scan(sources[0], 0, index);
        let tail = sources.drop_first();
        let rest = scan_all(tail, index + first.records.len());
        lemma_scan_frames_only(sources[0], 0, index);
        lemma_scan_all_frames_only(tail, index + first.records.len());
        lemma_all_records_concat(seq![first], rest);
        lemma_bytes_consumed_concat(seq![first], rest);
        lemma_single(first);
        let all = scan_all(sources, index);
        assert(all == seq![first] + rest);
        assert forall|i: int| 0 <= i < sources.len() implies (#[trigger] all[i]).skipped == Seq::<
            int,
        >::empty() && all[i].consumed == sources[i].len() by {
            if i > 0 {
                assert(all[i] == rest[i - 1]);
                assert(tail[i - 1] == sources[i]);
            }
        }
    }
}

/// The bytes of the frames of `records`, one behind the other.
pub open spec fn frames(records: Seq<RecordView>) -> Seq<u8>
    decreases records.len(),
{
    if records.len() == 0 {
        Seq::empty()
    } else {
        encoded(records[0]) + frames(records.drop_first())
    }
}

/// The records as they are read back: numbered from `index` on, without
/// lifecycle.
pub open spec fn renumbered(records: Seq<RecordView>, index: int) -> Seq<RecordView> {
    Seq::new(records.len(), |i: int| reread(records[i], (index + i) as u32))
}

/// Whether every record can be framed and has zero in its absent fields.
pub open spec fn all_framed(records: Seq<RecordView>) -> bool {
    forall|i: int|
        0 <= i < records.len() ==> encodable(#[trigger] records[i]) && fields_consistent(
            records[i],
        )
}

/// What stands behind the head of the rest of a stream.
proof fn lemma_skip_behind(s: Seq<u8>, pos: int, head: Seq<u8>, tail: Seq<u8>)
    requires
        0 <= pos <= s.len(),
        s.skip(pos) == head + tail,
    ensures
        pos + head.len() <= s.len(),
        s.skip(pos + head.len()) == tail,
{
    assert(s.skip(pos).len() == head.len() + tail.len());
    assert(s.skip(pos + head.len()) =~= s.skip(pos).skip(head.len() as int));
    assert((head + tail).skip(head.len() as int) =~= tail);
}

/// A stream of well-formed frames and nothing else is read completely: one
/// record for every frame, no byte skipped, every byte consumed.
pub proof fn lemma_scan_frames(s: Seq<u8>, pos: int, records: Seq<RecordView>, index: int)
    requires
        0 <= pos <= s.len(),
        s.skip(pos) == frames(records),
        all_framed(records),
        0 <= index,
        index + records.len() <= u32::MAX,
    ensures
        scan(s, pos, index).records == renumbered(records, index),
        scan(s, pos, index).skipped == Seq::<int>::empty(),
        scan(s, pos, index).consumed == s.len(),
    decreases records.len(),
{
    if records.len() == 0 {
        assert(s.skip(pos).len() == 0);
        assert(scan(s, pos, index).records =~= renumbered(records, index));
    } else {
        let first = records[0];
        let tail = records.drop_first();
        lemma_parse_encoded(first, frames(tail), index as u32);
        let n = encoded(first).len() as int;
        lemma_skip_behind(s, pos, encoded(first), frames(tail));
        assert(all_framed(tail)) by {
            assert forall|i: int| 0 <= i < tail.len() implies encodable(#[trigger] tail[i])
                && fields_consistent(tail[i]) by {
                assert(tail[i] == records[i + 1]);
            }
        }
        lemma_scan_frames(s, pos + n, tail, index + 1);
        assert(scan(s, pos, index).records =~= renumbered(records, index)) by {
            let rest = scan(s, pos + n, index + 1);
            assert forall|i: int| 0 <= i < records.len() implies scan(s, pos, index).records[i]
                == renumbered(records, index)[i] by {
                if i > 0 {
                    assert(scan(s, pos, index).records[i] == rest.records[i - 1]);
                    assert(tail[i - 1] == records[i]);
                }
            }
        }
    }
}

/// The sources that hold the frames of the lists of records, one source for
/// every list.
pub open spec fn frame_sources(lists: Seq<Seq<RecordView>>) -> Seq<Seq<u8>> {
    Seq::new(lists.len(), |i: int| frames(lists[i]))
}

/// The records of all lists, in the order of the lists.
pub open spec fn records_in(lists: Seq<Seq<RecordView>>) -> Seq<RecordView>
    decreases lists.len(),
{
    if lists.len() == 0 {
        Seq::empty()
    } else {
        lists[0] + records_in(lists.drop_first())
    }
}

/// Sources of well-formed frames and nothing else give, over all sources, the
/// record of every frame in the order of the sources and of the frames in
/// them, numbered without a gap; no byte is skipped and every byte is
/// consumed.
pub proof fn lemma_scan_all_frames(lists: Seq<Seq<RecordView>>, index: int)
    requires
        forall|i: int| 0 <= i < lists.len() ==> all_framed(#[trigger] lists[i]),
        0 <= index,
        index + records_in(lists).len() <= u32::MAX,
    ensures
        all_records(scan_all(frame_sources(lists), index)) == renumbered(records_in(lists), index),
        bytes_consumed(scan_all(frame_sources(lists), index)) == bytes_in(frame_sources(lists)),
        scan_all(frame_sources(lists), index).len() == lists.len(),
        forall|i: int|
            0 <= i < lists.len() ==> (#[trigger] scan_all(frame_sources(lists), index)[i]).skipped
                == Seq::<int>::empty(),
    decreases lists.len(),
{
    let sources = frame_sources(lists);
    if lists.len() == 0 {
        assert(all_records(scan_all(sources, index)) =~= renumbered(records_in(lists), index));
    } else {
        let source = sources[0];
        let first = scan(source, 0, index);
        let tail = lists.drop_first();
        assert(sources.drop_first() =~= frame_sources(tail));
        let rest = scan_all(frame_sources(tail), index + first.records.len());
        assert(source.skip(0) =~= source);
        lemma_scan_frames(source, 0, lists[0], index);
        assert(forall|i: int| 0 <= i < tail.len() ==> tail[i] == lists[i + 1]);
        lemma_scan_all_frames(tail, index + lists[0].len());
        lemma_all_records_concat(seq![first], rest);
        lemma_bytes_consumed_concat(seq![first], rest);
        lemma_single(first);
        let all = scan_all(sources, index);
        assert(all == seq![first] + rest);
        assert(renumbered(lists[0], index) + renumbered(records_in(tail), index + lists[0].len())
            =~= renumbered(records_in(lists), index));
        assert forall|i: int| 0 <= i < lists.len() implies (#[trigger] all[i]).skipped == Seq::<
            int,
        >::empty() by {
            if i > 0 {
                assert(all[i] == rest[i - 1]);
            }
        }
    }
}

} // verus!
