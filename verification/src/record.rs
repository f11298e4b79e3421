//! The trace record that travels through all pipeline stages.
use vstd::prelude::*;

verus! {

/// One parsed log entry.
///
/// Identifiers of four characters (`ecu_id`, `application_id`, `context_id`)
/// are kept as the big-endian number of their four bytes.
#[derive(Debug, PartialEq, Eq)]
pub struct TraceRecord {
    /// Position of the record in the stream it was read from.
    pub index: u32,
    /// Wall-clock time of capture in microseconds since the epoch.
    pub reception_time: u64,
    /// Device-local monotonic time in ticks of 100 microseconds.
    pub device_timestamp: u32,
    pub ecu_id: u32,
    pub session_id: u32,
    pub application_id: u32,
    pub context_id: u32,
    /// Header type byte: the flags that say which header fields are present.
    pub htyp: u8,
    /// Message counter of the sender.
    pub mcnt: u8,
    /// Verbose flag, message type and message type info.
    pub verb_mstp_mtin: u8,
    /// Number of arguments in the payload.
    pub noar: u8,
    /// The lifecycle the record belongs to, once a tracker has seen it.
    pub lifecycle_id: Option<u32>,
    pub payload: Vec<u8>,
}

/// The mathematical value of a [`TraceRecord`].
pub struct RecordView {
    pub index: u32,
    pub reception_time: u64,
    pub device_timestamp: u32,
    pub ecu_id: u32,
    pub session_id: u32,
    pub application_id: u32,
    pub context_id: u32,
    pub htyp: u8,
    pub mcnt: u8,
    pub verb_mstp_mtin: u8,
    pub noar: u8,
    pub lifecycle_id: Option<u32>,
    pub payload: Seq<u8>,
}

impl View for TraceRecord {
    type V = RecordView;

    open spec fn view(&self) -> RecordView {
        RecordView {
            index: self.index,
            reception_time: self.reception_time,
            device_timestamp: self.device_timestamp,
            ecu_id: self.ecu_id,
            session_id: self.session_id,
            application_id: self.application_id,
            context_id: self.context_id,
            htyp: self.htyp,
            mcnt: self.mcnt,
            verb_mstp_mtin: self.verb_mstp_mtin,
            noar: self.noar,
            lifecycle_id: self.lifecycle_id,
            payload: self.payload@,
        }
    }
}

/// The values of a sequence of records, one for one.
pub open spec fn views(records: Seq<TraceRecord>) -> Seq<RecordView> {
    Seq::new(records.len(), |i: int| records[i]@)
}

/// The values of a sequence with one more record are the values of the
/// sequence with the value of the record.
pub proof fn lemma_views_push(records: Seq<TraceRecord>, record: TraceRecord)
    ensures
        views(records.push(record)) == views(records).push(record@),
{
    assert(views(records.push(record)) =~= views(records).push(record@));
}

impl Clone for TraceRecord {
    fn clone(&self) -> (copy: Self)
        ensures
            copy@ == self@,
    {
        TraceRecord {
            index: self.index,
            reception_time: self.reception_time,
            device_timestamp: self.device_timestamp,
            ecu_id: self.ecu_id,
            session_id: self.session_id,
            application_id: self.application_id,
            context_id: self.context_id,
            htyp: self.htyp,
            mcnt: self.mcnt,
            verb_mstp_mtin: self.verb_mstp_mtin,
            noar: self.noar,
            lifecycle_id: self.lifecycle_id,
            payload: vstd::slice::slice_to_vec(self.payload.as_slice()),
        }
    }
}

} // verus!
