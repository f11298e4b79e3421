//! The lifecycle tracker: attributes every record to one continuous run of
//! the device that sent it, and publishes the table of all runs.
use vstd::prelude::*;
use vstd::multiset::Multiset;
use crate::frame::HTYP_UEH;
use crate::record::lemma_views_push;
use crate::record::views;
use crate::record::RecordView;
use crate::record::TraceRecord;
use crate::table::new_reader;
use crate::table::new_table;
use crate::table::publish;
use crate::table::published_bags;
use crate::table::published_entries;
use crate::table::stage_entry;
use crate::table::staged_entries;
use crate::table::Entry;
use crate::table::LifecycleTable;

verus! {

/// Microseconds in one tick of the device timestamp.
pub const TICK_MICROS: u64 = 100;

/// One continuous run of a device, from power-on to power-off.
#[derive(Clone, Copy, Debug, PartialEq, Eq, Structural)]
pub struct Lifecycle {
    /// Number of the lifecycle: the first one of a tracker has 1.
    pub id: u32,
    pub ecu_id: u32,
    /// Estimated wall-clock time of the boot, in microseconds.
    pub start_time: u64,
    /// Latest reception time of a record of this lifecycle.
    pub end_time: u64,
    /// Number of records attributed to the lifecycle; it stops at the
    /// largest number it can hold.
    pub message_count: u32,
    /// Whether every record so far was a control request.
    pub only_control_requests: bool,
    /// Device timestamp of the last record of the lifecycle.
    pub last_device_timestamp: u32,
}

/// A control message of the request kind, in a frame with extended header.
pub open spec fn is_control_request(r: RecordView) -> bool {
    r.htyp & HTYP_UEH != 0 && r.verb_mstp_mtin & 0xfe == 0x16
}

/// The reception time of `r` less the time its device had been running,
/// and no less than zero.
pub open spec fn boot_time(r: RecordView) -> u64 {
    if r.reception_time >= r.device_timestamp * 100 {
        (r.reception_time - r.device_timestamp * 100) as u64
    } else {
        0
    }
}

/// The lifecycle that begins with the record `r`.
pub open spec fn started(id: u32, r: RecordView) -> Lifecycle {
    Lifecycle {
        id,
        ecu_id: r.ecu_id,
        start_time: boot_time(r),
        end_time: r.reception_time,
        message_count: 1,
        only_control_requests: is_control_request(r),
        last_device_timestamp: r.device_timestamp,
    }
}

/// The lifecycle `lc` after the record `r` was attributed to it.
pub open spec fn extended(lc: Lifecycle, r: RecordView) -> Lifecycle {
    Lifecycle {
        id: lc.id,
        ecu_id: lc.ecu_id,
        start_time: lc.start_time,
        end_time: if r.reception_time > lc.end_time { r.reception_time } else { lc.end_time },
        message_count: if lc.message_count < u32::MAX {
            (lc.message_count + 1) as u32
        } else {
            lc.message_count
        },
        only_control_requests: lc.only_control_requests && is_control_request(r),
        last_device_timestamp: r.device_timestamp,
    }
}

/// Whether the device timestamp of `r` lies below that of the last record of
/// `lc`.
pub open spec fn falls_back(lc: Lifecycle, r: RecordView) -> bool {
    r.device_timestamp < lc.last_device_timestamp
}

/// Whether the device was started anew: the device timestamp of `r` has
/// fallen back to zero or so near to it that the tolerance cannot tell it
/// from zero.
pub open spec fn resets(lc: Lifecycle, r: RecordView, tolerance: u32) -> bool {
    falls_back(lc, r) && r.device_timestamp <= tolerance
}

/// Whether the device timestamp of `r` has fallen back by more than
/// `tolerance` ticks.
pub open spec fn jumps_back(lc: Lifecycle, r: RecordView, tolerance: u32) -> bool {
    falls_back(lc, r) && lc.last_device_timestamp - r.device_timestamp > tolerance
}

/// Whether the device timestamp of `r` goes on from the last record of `lc`:
/// it is not lower, or lower by no more than `tolerance` ticks and not near
/// zero.
pub open spec fn continues(lc: Lifecycle, r: RecordView, tolerance: u32) -> bool {
    !resets(lc, r, tolerance) && !jumps_back(lc, r, tolerance)
}

/// Position of the most recent lifecycle of the device `ecu_id`.
pub open spec fn current(ls: Seq<Lifecycle>, ecu_id: u32) -> Option<int>
    decreases ls.len(),
{
    if ls.len() == 0 {
        None
    } else if ls.last().ecu_id == ecu_id {
        Some(ls.len() - 1)
    } else {
        current(ls.drop_last(), ecu_id)
    }
}

/// Position of the lifecycle that `r` is attributed to, if none is begun.
pub open spec fn attaches(ls: Seq<Lifecycle>, r: RecordView, tolerance: u32) -> Option<int> {
    match current(ls, r.ecu_id) {
        Some(i) => if continues(ls[i], r, tolerance) { Some(i) } else { None },
        None => None,
    }
}

/// The table after the record `r`: its lifecycle has grown, or a new one
/// stands at the end.
pub open spec fn step(ls: Seq<Lifecycle>, r: RecordView, tolerance: u32) -> Seq<Lifecycle> {
    match attaches(ls, r, tolerance) {
        Some(i) => ls.update(i, extended(ls[i], r)),
        None => ls.push(started((ls.len() + 1) as u32, r)),
    }
}

/// Position in `step(ls, r, tolerance)` of the lifecycle of `r`.
pub open spec fn assigned(ls: Seq<Lifecycle>, r: RecordView, tolerance: u32) -> int {
    match attaches(ls, r, tolerance) {
        Some(i) => i,
        None => ls.len() as int,
    }
}

/// The record `r` with the id of the lifecycle it is attributed to.
pub open spec fn with_lifecycle(ls: Seq<Lifecycle>, r: RecordView, tolerance: u32) -> RecordView {
    RecordView { lifecycle_id: Some((assigned(ls, r, tolerance) + 1) as u32), ..r }
}

/// The records with their lifecycles, attributed one after the other from
/// the table `ls` on.
pub open spec fn attributed(records: Seq<RecordView>, ls: Seq<Lifecycle>, tolerance: u32) -> Seq<
    RecordView,
>
    decreases records.len(),
{
    if records.len() == 0 {
        records
    } else {
        seq![with_lifecycle(ls, records[0], tolerance)] + attributed(
            records.drop_first(),
            step(ls, records[0], tolerance),
            tolerance,
        )
    }
}

/// The table after all of `records`.
pub open spec fn table_after(records: Seq<RecordView>, ls: Seq<Lifecycle>, tolerance: u32) -> Seq<
    Lifecycle,
>
    decreases records.len(),
{
    if records.len() == 0 {
        ls
    } else {
        table_after(records.drop_first(), step(ls, records[0], tolerance), tolerance)
    }
}

/// A table in which the lifecycle at position `i` has the id `i + 1`, no
/// lifecycle ends before it starts, and every id fits.
pub open spec fn valid_table(ls: Seq<Lifecycle>) -> bool {
    &&& ls.len() <= u32::MAX
    &&& forall|i: int| 0 <= i < ls.len() ==> (#[trigger] ls[i]).id == i + 1
    &&& forall|i: int| 0 <= i < ls.len() ==> (#[trigger] ls[i]).start_time <= ls[i].end_time
}

/// What the published table holds of a lifecycle under its id.
pub open spec fn entry_of(lc: Lifecycle) -> Entry {
    (
        lc.ecu_id,
        lc.start_time,
        lc.end_time,
        lc.message_count,
        lc.only_control_requests,
        lc.last_device_timestamp,
    )
}

/// The lifecycle that the table holds as `entry` under `id`.
pub open spec fn lifecycle_of(id: u32, entry: Entry) -> Lifecycle {
    Lifecycle {
        id,
        ecu_id: entry.0,
        start_time: entry.1,
        end_time: entry.2,
        message_count: entry.3,
        only_control_requests: entry.4,
        last_device_timestamp: entry.5,
    }
}

/// The map that holds, under each id, the one entry of its lifecycle.
pub open spec fn table_of(ls: Seq<Lifecycle>) -> Map<u32, Multiset<Entry>> {
    Map::new(
        |id: u32| 1 <= id <= ls.len(),
        |id: u32| Multiset::singleton(entry_of(ls[id - 1])),
    )
}

/// The position of the most recent lifecycle of a device is that of a
/// lifecycle of the device, and no later lifecycle is of the device.
pub proof fn lemma_current(ls: Seq<Lifecycle>, ecu_id: u32)
    ensures
        match current(ls, ecu_id) {
            Some(i) => 0 <= i < ls.len() && ls[i].ecu_id == ecu_id && forall|j: int|
                i < j < ls.len() ==> (#[trigger] ls[j]).ecu_id != ecu_id,
            None => forall|j: int| 0 <= j < ls.len() ==> (#[trigger] ls[j]).ecu_id != ecu_id,
        },
    decreases ls.len(),
{
    if ls.len() > 0 && ls.last().ecu_id != ecu_id {
        lemma_current(ls.drop_last(), ecu_id);
        let shorter = ls.drop_last();
        assert(forall|j: int| 0 <= j < shorter.len() ==> shorter[j] == ls[j]);
    }
}

/// Every record is attributed to a lifecycle that is in the table and belongs
/// to the device of the record; the table stays valid.
pub proof fn lemma_assigned_to_own_device(ls: Seq<Lifecycle>, r: RecordView, tolerance: u32)
    requires
        valid_table(ls),
        ls.len() < u32::MAX,
    ensures
        valid_table(step(ls, r, tolerance)),
        0 <= assigned(ls, r, tolerance) < step(ls, r, tolerance).len(),
        step(ls, r, tolerance)[assigned(ls, r, tolerance)].ecu_id == r.ecu_id,
        step(ls, r, tolerance)[assigned(ls, r, tolerance)].id == assigned(ls, r, tolerance) + 1,
{
    lemma_current(ls, r.ecu_id);
}

/// A device timestamp that falls back to zero or near it, or falls back by
/// more than the tolerance, begins a new lifecycle, whose id is greater than
/// that of every lifecycle before it and whose start is the boot time of the
/// record. A fall to zero does so whatever the tolerance is.
pub proof fn lemma_reset_begins_lifecycle(ls: Seq<Lifecycle>, r: RecordView, tolerance: u32)
    requires
        valid_table(ls),
        ls.len() < u32::MAX,
        current(ls, r.ecu_id) is Some,
        ({
            let lc = ls[current(ls, r.ecu_id).unwrap()];
            r.device_timestamp < lc.last_device_timestamp && (r.device_timestamp == 0
                || r.device_timestamp <= tolerance || lc.last_device_timestamp
                - r.device_timestamp > tolerance)
        }),
    ensures
        step(ls, r, tolerance) == ls.push(started((ls.len() + 1) as u32, r)),
        assigned(ls, r, tolerance) == ls.len(),
        step(ls, r, tolerance).last().start_time == boot_time(r),
        forall|j: int| 0 <= j < ls.len() ==> (#[trigger] ls[j]).id < step(ls, r, tolerance).last().id,
{
    lemma_current(ls, r.ecu_id);
}

/// A device timestamp that does not fall back, or falls back by no more than
/// the tolerance to a value above it, goes on in the lifecycle of its device.
pub proof fn lemma_progress_continues(ls: Seq<Lifecycle>, r: RecordView, tolerance: u32)
    requires
        valid_table(ls),
        current(ls, r.ecu_id) is Some,
        ({
            let lc = ls[current(ls, r.ecu_id).unwrap()];
            r.device_timestamp >= lc.last_device_timestamp || (lc.last_device_timestamp
                - r.device_timestamp <= tolerance && r.device_timestamp > tolerance)
        }),
    ensures
        assigned(ls, r, tolerance) == current(ls, r.ecu_id).unwrap(),
        step(ls, r, tolerance) == ls.update(
            current(ls, r.ecu_id).unwrap(),
            extended(ls[current(ls, r.ecu_id).unwrap()], r),
        ),
{
    lemma_current(ls, r.ecu_id);
}

/// Three records of one device with rising device timestamps and then one
/// whose device timestamp is zero give two lifecycles, whatever the
/// tolerance: the first holds the three records, the second the fourth, and
/// the second starts at the reception time of its record.
pub proof fn lemma_three_then_reset(
    r1: RecordView,
    r2: RecordView,
    r3: RecordView,
    r4: RecordView,
    tolerance: u32,
)
    requires
        r1.ecu_id == r2.ecu_id == r3.ecu_id == r4.ecu_id,
        r1.device_timestamp < r2.device_timestamp < r3.device_timestamp,
        r4.device_timestamp == 0,
    ensures
        ({
            let records = seq![r1, r2, r3, r4];
            let table = table_after(records, Seq::empty(), tolerance);
            let out = attributed(records, Seq::empty(), tolerance);
            &&& table.len() == 2
            &&& table[0].id == 1 && table[1].id == 2
            &&& table[0].ecu_id == r1.ecu_id && table[1].ecu_id == r1.ecu_id
            &&& table[0].message_count == 3 && table[1].message_count == 1
            &&& table[0].start_time == boot_time(r1)
            &&& table[1].start_time == r4.reception_time
            &&& table[0].start_time <= table[0].end_time
            &&& table[1].start_time <= table[1].end_time
            &&& out.len() == 4
            &&& out[0].lifecycle_id == Some(1u32)
            &&& out[1].lifecycle_id == Some(1u32)
            &&& out[2].lifecycle_id == Some(1u32)
            &&& out[3].lifecycle_id == Some(2u32)
        }),
{
    let records = seq![r1, r2, r3, r4];
    let none = Seq::<Lifecycle>::empty();
    let t1 = step(none, r1, tolerance);
    let t2 = step(t1, r2, tolerance);
    let t3 = step(t2, r3, tolerance);
    let t4 = step(t3, r4, tolerance);
    let s1 = records.drop_first();
    let s2 = s1.drop_first();
    let s3 = s2.drop_first();
    let s4 = s3.drop_first();
    assert(s1[0] == r2 && s2[0] == r3 && s3[0] == r4 && s4.len() == 0);
    assert(current(none, r1.ecu_id) is None);
    assert(t1 =~= seq![started(1, r1)]);
    assert(t1.drop_last() =~= none);
    assert(current(t1, r2.ecu_id) == Some(0int));
    assert(t2 =~= seq![extended(t1[0], r2)]);
    assert(t2.drop_last() =~= none);
    assert(current(t2, r3.ecu_id) == Some(0int));
    assert(t3 =~= seq![extended(t2[0], r3)]);
    assert(t3.drop_last() =~= none);
    assert(current(t3, r4.ecu_id) == Some(0int));
    assert(resets(t3[0], r4, tolerance));
    assert(t4 =~= seq![t3[0], started(2, r4)]);
    assert(table_after(s4, t4, tolerance) == t4);
    assert(table_after(s3, t3, tolerance) == t4);
    assert(table_after(s2, t2, tolerance) == t4);
    assert(table_after(s1, t1, tolerance) == t4);
    assert(table_after(records, none, tolerance) == t4);
    let a4 = attributed(s4, t4, tolerance);
    let a3 = attributed(s3, t3, tolerance);
    let a2 = attributed(s2, t2, tolerance);
    let a1 = attributed(s1, t1, tolerance);
    let a0 = attributed(records, none, tolerance);
    assert(a4.len() == 0);
    assert(a3 =~= seq![with_lifecycle(t3, r4, tolerance)]);
    assert(a2 =~= seq![with_lifecycle(t2, r3, tolerance), with_lifecycle(t3, r4, tolerance)]);
    assert(a1 =~= seq![
        with_lifecycle(t1, r2, tolerance),
        with_lifecycle(t2, r3, tolerance),
        with_lifecycle(t3, r4, tolerance),
    ]);
    assert(a0 =~= seq![
        with_lifecycle(none, r1, tolerance),
        with_lifecycle(t1, r2, tolerance),
        with_lifecycle(t2, r3, tolerance),
        with_lifecycle(t3, r4, tolerance),
    ]);
}

/// A record changes at most its own lifecycle, and that only forward: no
/// lifecycle leaves the table, ids, devices and start times stay, message
/// counts and end times do not fall, and the mark of control requests only
/// is never set again once it is gone.
pub proof fn lemma_step_only_grows(ls: Seq<Lifecycle>, r: RecordView, tolerance: u32)
    requires
        valid_table(ls),
    ensures
        ls.len() <= step(ls, r, tolerance).len() <= ls.len() + 1,
        forall|i: int|
            0 <= i < ls.len() ==> {
                let before = #[trigger] ls[i];
                let after = step(ls, r, tolerance)[i];
                &&& after.id == before.id
                &&& after.ecu_id == before.ecu_id
                &&& after.start_time == before.start_time
                &&& after.end_time >= before.end_time
                &&& after.message_count >= before.message_count
                &&& after.only_control_requests ==> before.only_control_requests
                &&& i != assigned(ls, r, tolerance) ==> after == before
            },
{
    lemma_current(ls, r.ecu_id);
}

/// Over any number of records the table stays valid, loses no lifecycle and
/// changes neither the id nor the device of one.
pub proof fn lemma_table_after_keeps(records: Seq<RecordView>, ls: Seq<Lifecycle>, tolerance: u32)
    requires
        valid_table(ls),
        ls.len() + records.len() <= u32::MAX,
    ensures
        valid_table(table_after(records, ls, tolerance)),
        ls.len() <= table_after(records, ls, tolerance).len() <= ls.len() + records.len(),
        forall|i: int|
            0 <= i < ls.len() ==> (#[trigger] table_after(records, ls, tolerance)[i]).ecu_id
                == ls[i].ecu_id,
    decreases records.len(),
{
    if records.len() > 0 {
        let next = step(ls, records[0], tolerance);
        lemma_assigned_to_own_device(ls, records[0], tolerance);
        lemma_step_only_grows(ls, records[0], tolerance);
        lemma_table_after_keeps(records.drop_first(), next, tolerance);
        assert forall|i: int| 0 <= i < ls.len() implies (#[trigger] table_after(
            records,
            ls,
            tolerance,
        )[i]).ecu_id == ls[i].ecu_id by {
            assert(next[i].ecu_id == ls[i].ecu_id);
        }
    }
}

/// Every record that the tracker has seen carries the id of a lifecycle that
/// is in the table and belongs to the device of the record, and is otherwise
/// as it came.
pub proof fn lemma_attributed_to_own_device(
    records: Seq<RecordView>,
    ls: Seq<Lifecycle>,
    tolerance: u32,
    i: int,
)
    requires
        valid_table(ls),
        ls.len() + records.len() <= u32::MAX,
        0 <= i < records.len(),
    ensures
        attributed(records, ls, tolerance).len() == records.len(),
        attributed(records, ls, tolerance)[i].lifecycle_id is Some,
        ({
            let id = attributed(records, ls, tolerance)[i].lifecycle_id.unwrap();
            let table = table_after(records, ls, tolerance);
            &&& 1 <= id <= table.len()
            &&& table[id - 1].id == id
            &&& table[id - 1].ecu_id == records[i].ecu_id
            &&& attributed(records, ls, tolerance)[i] == (RecordView {
                lifecycle_id: Some(id),
                ..records[i]
            })
        }),
    decreases records.len(),
{
    let next = step(ls, records[0], tolerance);
    let rest = records.drop_first();
    lemma_attributed_len(records, ls, tolerance);
    lemma_assigned_to_own_device(ls, records[0], tolerance);
    lemma_step_only_grows(ls, records[0], tolerance);
    lemma_table_after_keeps(rest, next, tolerance);
    if i == 0 {
        let at = assigned(ls, records[0], tolerance);
        assert(table_after(records, ls, tolerance)[at].ecu_id == next[at].ecu_id);
    } else {
        lemma_attributed_to_own_device(rest, next, tolerance, i - 1);
        assert(attributed(records, ls, tolerance)[i] == attributed(rest, next, tolerance)[i - 1]);
        assert(rest[i - 1] == records[i]);
    }
}

/// Attributing gives one record for every record.
pub proof fn lemma_attributed_len(records: Seq<RecordView>, ls: Seq<Lifecycle>, tolerance: u32)
    ensures
        attributed(records, ls, tolerance).len() == records.len(),
    decreases records.len(),
{
    if records.len() > 0 {
        lemma_attributed_len(records.drop_first(), step(ls, records[0], tolerance), tolerance);
    }
}

/// Whether the record is a control request.
pub fn control_request(record: &TraceRecord) -> (b: bool)
    ensures
        b == is_control_request(record@),
{
    record.htyp & HTYP_UEH != 0 && record.verb_mstp_mtin & 0xfe == 0x16
}

/// The single writer of the lifecycle table.
pub struct LifecycleTracker {
    tolerance: u32,
    lifecycles: Vec<Lifecycle>,
    table: LifecycleTable,
}

impl LifecycleTracker {
    /// All lifecycles so far, in the order of their ids.
    pub closed spec fn lifecycles(&self) -> Seq<Lifecycle> {
        self.lifecycles@
    }

    /// How many ticks a device timestamp may fall back within a lifecycle.
    pub closed spec fn tolerance(&self) -> u32 {
        self.tolerance
    }

    /// What the readers of the table see: for each id the bag of its entries.
    pub closed spec fn published(&self) -> Map<u32, Multiset<Entry>> {
        published_entries(self.table)
    }

    /// The tracker's table is valid and the readers see all of it.
    pub closed spec fn wf(&self) -> bool {
        &&& valid_table(self.lifecycles@)
        &&& staged_entries(self.table) == table_of(self.lifecycles@)
        &&& published_entries(self.table) == table_of(self.lifecycles@)
    }

    /// Whether one more lifecycle can get an id.
    pub open spec fn has_room(&self) -> bool {
        self.lifecycles().len() < u32::MAX
    }

    /// Of a tracker that is well formed the table is valid, and the readers
    /// see under every id the one entry of its lifecycle.
    pub proof fn lemma_published(&self)
        requires
            self.wf(),
        ensures
            valid_table(self.lifecycles()),
            self.published() == table_of(self.lifecycles()),
    {
    }

    /// A tracker without lifecycles.
    pub fn new(tolerance: u32) -> (tracker: LifecycleTracker)
        ensures
            tracker.wf(),
            tracker.tolerance() == tolerance,
            tracker.lifecycles() == Seq::<Lifecycle>::empty(),
    {
        let table = new_table();
        assert(staged_entries(table) =~= table_of(Seq::<Lifecycle>::empty()));
        assert(published_entries(table) =~= table_of(Seq::<Lifecycle>::empty()));
        LifecycleTracker { tolerance, lifecycles: Vec::new(), table }
    }

    /// Looks for the most recent lifecycle of a device, from the latest back.
    fn find_current(&self, ecu_id: u32) -> (found: Option<usize>)
        ensures
            match found {
                Some(i) => i < self.lifecycles().len() && current(self.lifecycles(), ecu_id)
                    == Some(i as int),
                None => current(self.lifecycles(), ecu_id) is None,
            },
    {
        let mut i: usize = self.lifecycles.len();
        assert(self.lifecycles@.take(i as int) =~= self.lifecycles@);
        while i > 0
            invariant
                i <= self.lifecycles@.len(),
                current(self.lifecycles@, ecu_id) == current(self.lifecycles@.take(i as int), ecu_id),
            decreases i,
        {
            i = i - 1;
            assert(self.lifecycles@.take(i + 1).drop_last() =~= self.lifecycles@.take(i as int));
            if self.lifecycles[i].ecu_id == ecu_id {
                return Some(i);
            }
        }
        None
    }

    /// Attributes `record` to a lifecycle and hands it back with the id of
    /// that lifecycle, otherwise unchanged. The table then holds the
    /// lifecycle as it stands after the record, also for the readers.
    ///
    /// Publishing waits until every reader has left the read it is in. A
    /// read that never ends, or one that is open on the thread of the
    /// tracker itself, keeps this function from returning.
    pub fn assign(&mut self, record: TraceRecord) -> (stamped: TraceRecord)
        requires
            old(self).wf(),
            old(self).has_room(),
        ensures
            final(self).wf(),
            final(self).tolerance() == old(self).tolerance(),
            final(self).lifecycles() == step(
                old(self).lifecycles(),
                record@,
                old(self).tolerance(),
            ),
            stamped@ == with_lifecycle(old(self).lifecycles(), record@, old(self).tolerance()),
            final(self).published() == table_of(final(self).lifecycles()),
            stamped.lifecycle_id matches Some(id) && 1 <= id <= final(self).lifecycles().len()
                && final(self).lifecycles()[id - 1].id == id && final(self).lifecycles()[id
                - 1].ecu_id == record.ecu_id,
    {
        let ghost before = self.lifecycles@;
        let control: bool = control_request(&record);
        let mut position: Option<usize> = None;
        match self.find_current(record.ecu_id) {
            Some(i) => {
                let last: u32 = self.lifecycles[i].last_device_timestamp;
                if record.device_timestamp >= last || (last - record.device_timestamp
                    <= self.tolerance && record.device_timestamp > self.tolerance) {
                    position = Some(i);
                }
            },
            None => {},
        }
        proof {
            lemma_current(before, record.ecu_id);
        }
        let at: usize;
        let lifecycle: Lifecycle;
        match position {
            Some(i) => {
                let lc: Lifecycle = self.lifecycles[i];
                lifecycle =
                Lifecycle {
                    id: lc.id,
                    ecu_id: lc.ecu_id,
                    start_time: lc.start_time,
                    end_time: if record.reception_time > lc.end_time {
                        record.reception_time
                    } else {
                        lc.end_time
                    },
                    message_count: if lc.message_count < u32::MAX {
                        lc.message_count + 1
                    } else {
                        lc.message_count
                    },
                    only_control_requests: lc.only_control_requests && control,
                    last_device_timestamp: record.device_timestamp,
                };
                at = i;
                self.lifecycles.set(i, lifecycle);
                assert(table_of(self.lifecycles@) =~= table_of(before).insert(
                    lifecycle.id,
                    Multiset::singleton(entry_of(lifecycle)),
                ));
            },
            None => {
                let ticks: u64 = (record.device_timestamp as u64) * TICK_MICROS;
                lifecycle =
                Lifecycle {
                    id: (self.lifecycles.len() + 1) as u32,
                    ecu_id: record.ecu_id,
                    start_time: if record.reception_time >= ticks {
                        record.reception_time - ticks
                    } else {
                        0
                    },
                    end_time: record.reception_time,
                    message_count: 1,
                    only_control_requests: control,
                    last_device_timestamp: record.device_timestamp,
                };
                at = self.lifecycles.len();
                self.lifecycles.push(lifecycle);
                assert(table_of(self.lifecycles@) =~= table_of(before).insert(
                    lifecycle.id,
                    Multiset::singleton(entry_of(lifecycle)),
                ));
            },
        }
        stage_entry(
            &mut self.table,
            lifecycle.id,
            (
                lifecycle.ecu_id,
                lifecycle.start_time,
                lifecycle.end_time,
                lifecycle.message_count,
                lifecycle.only_control_requests,
                lifecycle.last_device_timestamp,
            ),
        );
        publish(&mut self.table);
        let mut stamped = record;
        stamped.lifecycle_id = Some(lifecycle.id);
        stamped
    }

    /// Attributes the records one after the other, in their order.
    pub fn assign_all(&mut self, records: Vec<TraceRecord>) -> (out: Vec<TraceRecord>)
        requires
            old(self).wf(),
            old(self).lifecycles().len() + records@.len() <= u32::MAX,
        ensures
            final(self).wf(),
            final(self).tolerance() == old(self).tolerance(),
            views(out@) == attributed(views(records@), old(self).lifecycles(), old(self).tolerance()),
            final(self).lifecycles() == table_after(
                views(records@),
                old(self).lifecycles(),
                old(self).tolerance(),
            ),
    {
        let mut out: Vec<TraceRecord> = Vec::new();
        let ghost input = views(records@);
        let ghost tolerance = self.tolerance;
        let ghost whole = attributed(input, self.lifecycles@, tolerance);
        let ghost table = table_after(input, self.lifecycles@, tolerance);
        let ghost start = self.lifecycles@.len();
        assert(input.skip(0) =~= input);
        assert(views(out@) + whole =~= whole);
        for record in iter: records
            invariant
                self.wf(),
                self.tolerance == tolerance,
                input == views(iter.seq()),
                self.lifecycles@.len() <= start + iter.index(),
                start + input.len() <= u32::MAX,
                whole == views(out@) + attributed(
                    input.skip(iter.index() as int),
                    self.lifecycles@,
                    tolerance,
                ),
                table == table_after(input.skip(iter.index() as int), self.lifecycles@, tolerance),
        {
            let ghost before = views(out@);
            let ghost ls = self.lifecycles@;
            let ghost i = iter.index() as int;
            proof {
                assert(input.skip(i)[0] == record@);
                assert(input.skip(i).drop_first() =~= input.skip(i + 1));
                lemma_step_only_grows(ls, record@, tolerance);
            }
            let stamped = self.assign(record);
            proof {
                lemma_views_push(out@, stamped);
                let later = attributed(input.skip(i + 1), self.lifecycles@, tolerance);
                assert(before.push(stamped@) + later =~= before + (seq![stamped@] + later));
            }
            out.push(stamped);
        }
        assert(views(out@) + Seq::<RecordView>::empty() =~= views(out@));
        out
    }

    /// Number of lifecycles so far.
    pub fn lifecycle_count(&self) -> (n: usize)
        ensures
            n == self.lifecycles().len(),
    {
        self.lifecycles.len()
    }

    /// The lifecycles as the tracker holds them, in the order of their ids.
    pub fn lifecycles_vec(&self) -> (out: Vec<Lifecycle>)
        ensures
            out@ == self.lifecycles(),
    {
        let mut out: Vec<Lifecycle> = Vec::new();
        let mut i: usize = 0;
        while i < self.lifecycles.len()
            invariant
                i <= self.lifecycles@.len(),
                out@ == self.lifecycles@.take(i as int),
            decreases self.lifecycles@.len() - i,
        {
            out.push(self.lifecycles[i]);
            assert(self.lifecycles@.take(i + 1) =~= self.lifecycles@.take(i as int).push(
                self.lifecycles@[i as int],
            ));
            i = i + 1;
        }
        assert(self.lifecycles@.take(i as int) =~= self.lifecycles@);
        out
    }

    /// The lifecycles as the readers of the table see them, in the order of
    /// their ids: after every record these are all lifecycles as they stand.
    pub fn published_lifecycles(&self) -> (out: Vec<Lifecycle>)
        requires
            self.wf(),
        ensures
            out@ == self.lifecycles(),
    {
        let bags = published_bags(&self.table);
        let count: usize = self.lifecycles.len();
        let mut out: Vec<Lifecycle> = Vec::new();
        let mut next: usize = 0;
        while next < count
            invariant
                self.wf(),
                count == self.lifecycles@.len(),
                next <= count,
                out@ == self.lifecycles@.take(next as int),
                forall|i: int|
                    0 <= i < bags@.len() ==> published_entries(self.table).dom().contains(
                        (#[trigger] bags@[i]).0,
                    ) && published_entries(self.table)[bags@[i].0] == bags@[i].1@.to_multiset(),
                forall|id: u32|
                    published_entries(self.table).dom().contains(id) ==> exists|i: int|
                        0 <= i < bags@.len() && (#[trigger] bags@[i]).0 == id,
            decreases count - next,
        {
            let id: u32 = (next + 1) as u32;
            assert(published_entries(self.table).dom().contains(id));
            proof {
                lemma_first_of(bags@, id);
            }
            match first_entry(&bags, id) {
                Some(entry) => {
                    proof {
                        let i = choose|i: int|
                            0 <= i < bags@.len() && bags@[i].0 == id && bags@[i].1@.len() > 0
                                && bags@[i].1@[0] == entry;
                        let bag = bags@[i].1@;
                        vstd::seq_lib::to_multiset_contains(bag, entry);
                        assert(bag.contains(entry));
                        assert(Multiset::singleton(entry_of(self.lifecycles@[next as int])).count(
                            entry,
                        ) > 0);
                    }
                    out.push(
                        Lifecycle {
                            id,
                            ecu_id: entry.0,
                            start_time: entry.1,
                            end_time: entry.2,
                            message_count: entry.3,
                            only_control_requests: entry.4,
                            last_device_timestamp: entry.5,
                        },
                    );
                },
                None => {
                    proof {
                        let i = choose|i: int| 0 <= i < bags@.len() && (#[trigger] bags@[i]).0 == id;
                        let bag = bags@[i].1@;
                        vstd::seq_lib::to_multiset_len(bag);
                        assert(bag.len() == 1);
                        assert(false);
                    }
                },
            }
            assert(self.lifecycles@.take(next + 1) =~= self.lifecycles@.take(next as int).push(
                self.lifecycles@[next as int],
            ));
            next = next + 1;
        }
        assert(self.lifecycles@.take(next as int) =~= self.lifecycles@);
        out
    }

    /// One more reader of the published table, for another thread. What it
    /// sees is what was published when it looks, which may be less than the
    /// tracker holds by then.
    ///
    /// A reader has to end every read soon and must not hold one open on the
    /// thread of the tracker: [`LifecycleTracker::assign`] waits for all
    /// readers to leave their reads before it returns.
    pub fn reader(&self) -> evmap::ReadHandle<u32, Entry> {
        new_reader(&self.table)
    }
}

/// The first entry of the first bag that stands under `id` and is not
/// empty, if there is such a bag.
pub open spec fn first_of(bags: Seq<(u32, Vec<Entry>)>, id: u32) -> Option<Entry>
    decreases bags.len(),
{
    if bags.len() == 0 {
        None
    } else if bags[0].0 == id && bags[0].1@.len() > 0 {
        Some(bags[0].1@[0])
    } else {
        first_of(bags.drop_first(), id)
    }
}

/// What is found under an id stands first in a bag under that id; where
/// nothing is found, every bag under the id is empty.
pub proof fn lemma_first_of(bags: Seq<(u32, Vec<Entry>)>, id: u32)
    ensures
        match first_of(bags, id) {
            Some(entry) => exists|i: int|
                0 <= i < bags.len() && (#[trigger] bags[i]).0 == id && bags[i].1@.len() > 0
                    && bags[i].1@[0] == entry,
            None => forall|i: int|
                0 <= i < bags.len() && (#[trigger] bags[i]).0 == id ==> bags[i].1@.len() == 0,
        },
    decreases bags.len(),
{
    if bags.len() > 0 && !(bags[0].0 == id && bags[0].1@.len() > 0) {
        let rest = bags.drop_first();
        lemma_first_of(rest, id);
        assert(forall|i: int| 0 <= i < rest.len() ==> rest[i] == bags[i + 1]);
        match first_of(rest, id) {
            Some(entry) => {
                let i = choose|i: int|
                    0 <= i < rest.len() && (#[trigger] rest[i]).0 == id && rest[i].1@.len() > 0
                        && rest[i].1@[0] == entry;
                assert(bags[i + 1].0 == id && bags[i + 1].1@.len() > 0 && bags[i + 1].1@[0]
                    == entry);
            },
            None => {
                assert forall|i: int| 0 <= i < bags.len() && (#[trigger] bags[i]).0
                    == id implies bags[i].1@.len() == 0 by {
                    if i > 0 {
                        assert(rest[i - 1] == bags[i]);
                    }
                }
            },
        }
    }
}

/// The first entry of the first non-empty bag that stands under `id`.
pub fn first_entry(bags: &Vec<(u32, Vec<Entry>)>, id: u32) -> (found: Option<Entry>)
    ensures
        found == first_of(bags@, id),
{
    let mut i: usize = 0;
    assert(bags@.skip(0) =~= bags@);
    while i < bags.len()
        invariant
            i <= bags@.len(),
            first_of(bags@, id) == first_of(bags@.skip(i as int), id),
        decreases bags@.len() - i,
    {
        assert(bags@.skip(i as int)[0] == bags@[i as int]);
        assert(bags@.skip(i as int).drop_first() =~= bags@.skip(i + 1));
        if bags[i].0 == id && bags[i].1.len() > 0 {
            return Some(bags[i].1[0]);
        }
        i = i + 1;
    }
    None
}

/// The lifecycles that the bags of a table give: for every bag that is not
/// empty, in the order of the bags, the lifecycle of its first entry.
pub open spec fn picked(bags: Seq<(u32, Vec<Entry>)>) -> Seq<Lifecycle>
    decreases bags.len(),
{
    if bags.len() == 0 {
        Seq::empty()
    } else if bags.last().1@.len() > 0 {
        picked(bags.drop_last()).push(lifecycle_of(bags.last().0, bags.last().1@[0]))
    } else {
        picked(bags.drop_last())
    }
}

/// No lifecycle stands before one with a lower id.
pub open spec fn id_sorted(s: Seq<Lifecycle>) -> bool {
    forall|i: int, j: int| 0 <= i <= j < s.len() ==> (#[trigger] s[i]).id <= (#[trigger] s[j]).id
}

/// Where a lifecycle of the id `id` goes into `s`: behind the last one whose
/// id is not greater.
pub open spec fn rank(s: Seq<Lifecycle>, id: u32) -> int
    decreases s.len(),
{
    if s.len() == 0 {
        0
    } else if s.last().id <= id {
        s.len() as int
    } else {
        rank(s.drop_last(), id)
    }
}

/// The lifecycles of `s` by their ids, those of equal id in the order they
/// have in `s`.
pub open spec fn by_id(s: Seq<Lifecycle>) -> Seq<Lifecycle>
    decreases s.len(),
{
    if s.len() == 0 {
        s
    } else {
        by_id(s.drop_last()).insert(rank(by_id(s.drop_last()), s.last().id), s.last())
    }
}

/// Before the rank stand ids that are not greater, from it on greater ones.
proof fn lemma_rank(s: Seq<Lifecycle>, id: u32)
    ensures
        0 <= rank(s, id) <= s.len(),
        forall|i: int| rank(s, id) <= i < s.len() ==> (#[trigger] s[i]).id > id,
        rank(s, id) > 0 ==> s[rank(s, id) - 1].id <= id,
    decreases s.len(),
{
    if s.len() > 0 && s.last().id > id {
        let shorter = s.drop_last();
        lemma_rank(shorter, id);
        assert(forall|i: int| 0 <= i < shorter.len() ==> shorter[i] == s[i]);
    }
}

/// Ordering by id gives the same lifecycles, each as often as before, with no
/// lifecycle before one of a lower id.
pub proof fn lemma_by_id(s: Seq<Lifecycle>)
    ensures
        id_sorted(by_id(s)),
        by_id(s).len() == s.len(),
        by_id(s).to_multiset() == s.to_multiset(),
    decreases s.len(),
{
    broadcast use vstd::multiset::group_multiset_axioms;

    if s.len() == 0 {
    } else {
        let shorter = by_id(s.drop_last());
        let lc = s.last();
        let p = rank(shorter, lc.id);
        let out = by_id(s);
        lemma_by_id(s.drop_last());
        lemma_rank(shorter, lc.id);
        assert forall|i: int, j: int| 0 <= i <= j < out.len() implies (#[trigger] out[i]).id <= (
        #[trigger] out[j]).id by {
            if i < p {
                assert(out[i] == shorter[i]);
                assert(shorter[i].id <= shorter[p - 1].id);
            } else if i > p {
                assert(out[i] == shorter[i - 1]);
            }
            if j < p {
                assert(out[j] == shorter[j]);
            } else if j > p {
                assert(out[j] == shorter[j - 1]);
            }
        }
        vstd::seq_lib::to_multiset_insert(shorter, p, lc);
        assert(s.drop_last().push(lc) =~= s);
        vstd::seq_lib::to_multiset_build(s.drop_last(), lc);
    }
}

/// The lifecycles that a reader of the table got as bags, by their ids.
pub fn lifecycles_of_bags(bags: &Vec<(u32, Vec<Entry>)>) -> (out: Vec<Lifecycle>)
    ensures
        out@ == by_id(picked(bags@)),
{
    let mut out: Vec<Lifecycle> = Vec::new();
    let mut i: usize = 0;
    assert(bags@.take(0) =~= Seq::<(u32, Vec<Entry>)>::empty());
    while i < bags.len()
        invariant
            i <= bags@.len(),
            out@ == by_id(picked(bags@.take(i as int))),
        decreases bags@.len() - i,
    {
        assert(bags@.take(i + 1).drop_last() =~= bags@.take(i as int));
        assert(bags@.take(i + 1).last() == bags@[i as int]);
        if bags[i].1.len() > 0 {
            let entry: Entry = bags[i].1[0];
            let id: u32 = bags[i].0;
            let lifecycle = Lifecycle {
                id,
                ecu_id: entry.0,
                start_time: entry.1,
                end_time: entry.2,
                message_count: entry.3,
                only_control_requests: entry.4,
                last_device_timestamp: entry.5,
            };
            let ghost before = picked(bags@.take(i as int));
            assert(before.push(lifecycle).drop_last() =~= before);
            let mut at: usize = out.len();
            assert(out@.take(at as int) =~= out@);
            while at > 0 && out[at - 1].id > id
                invariant
                    at <= out@.len(),
                    rank(out@, id) == rank(out@.take(at as int), id),
                decreases at,
            {
                assert(out@.take(at as int).drop_last() =~= out@.take(at - 1));
                at = at - 1;
            }
            out.insert(at, lifecycle);
        }
        i = i + 1;
    }
    assert(bags@.take(i as int) =~= bags@);
    out
}

} // verus!
