//! The values that a session sends to a remote viewer in binary frames.
use vstd::prelude::*;
use crate::lifecycle::Lifecycle;
use crate::record::RecordView;
use crate::record::TraceRecord;

verus! {

/// A lifecycle as a viewer gets it.
#[derive(Clone, Copy, Debug, PartialEq, Eq, Structural)]
pub struct BinLifecycle {
    pub id: u32,
    pub ecu: u32,
    pub nr_msgs: u32,
    pub start_time: u64,
    pub end_time: u64,
}

/// A record as a viewer gets it, with its payload as text.
#[derive(Debug, PartialEq, Eq)]
pub struct BinDltMsg {
    pub index: u32,
    pub reception_time: u64,
    pub timestamp_dms: u32,
    pub ecu: u32,
    pub apid: u32,
    pub ctid: u32,
    /// Id of the lifecycle, or zero where the record has none.
    pub lifecycle_id: u32,
    pub htyp: u8,
    pub mcnt: u8,
    pub verb_mstp_mtin: u8,
    pub noar: u8,
    pub payload_as_text: String,
}

/// How far the ingestion of a file has come.
#[derive(Clone, Copy, Debug, PartialEq, Eq, Structural)]
pub struct BinFileInfo {
    pub nr_msgs: u32,
}

/// The payload of one binary frame, by its kind.
#[derive(Debug, PartialEq, Eq)]
pub enum BinType {
    FileInfo(BinFileInfo),
    Lifecycles(Vec<BinLifecycle>),
    /// The id of the stream that asked for the records, and the records.
    DltMsgs((u32, Vec<BinDltMsg>)),
}

/// The lifecycle as a viewer gets it.
pub open spec fn bin_lifecycle(lc: Lifecycle) -> BinLifecycle {
    BinLifecycle {
        id: lc.id,
        ecu: lc.ecu_id,
        nr_msgs: lc.message_count,
        start_time: lc.start_time,
        end_time: lc.end_time,
    }
}

/// The lifecycles as a viewer gets them, one for one.
pub open spec fn bin_lifecycles(ls: Seq<Lifecycle>) -> Seq<BinLifecycle> {
    Seq::new(ls.len(), |i: int| bin_lifecycle(ls[i]))
}

/// Whether `m` is the record `r` with the payload text `text`.
pub open spec fn shows(m: BinDltMsg, r: RecordView, text: Seq<char>) -> bool {
    &&& m.index == r.index
    &&& m.reception_time == r.reception_time
    &&& m.timestamp_dms == r.device_timestamp
    &&& m.ecu == r.ecu_id
    &&& m.apid == r.application_id
    &&& m.ctid == r.context_id
    &&& m.lifecycle_id == (match r.lifecycle_id {
        Some(id) => id,
        None => 0,
    })
    &&& m.htyp == r.htyp
    &&& m.mcnt == r.mcnt
    &&& m.verb_mstp_mtin == r.verb_mstp_mtin
    &&& m.noar == r.noar
    &&& m.payload_as_text@ == text
}

impl BinLifecycle {
    /// What a viewer gets of a lifecycle.
    pub fn from_lifecycle(lc: &Lifecycle) -> (b: BinLifecycle)
        ensures
            b == bin_lifecycle(*lc),
    {
        BinLifecycle {
            id: lc.id,
            ecu: lc.ecu_id,
            nr_msgs: lc.message_count,
            start_time: lc.start_time,
            end_time: lc.end_time,
        }
    }
}

impl BinDltMsg {
    /// What a viewer gets of a record, with the text that its payload was
    /// rendered to.
    pub fn from_record(record: &TraceRecord, payload_as_text: String) -> (m: BinDltMsg)
        ensures
            shows(m, record@, payload_as_text@),
    {
        BinDltMsg {
            index: record.index,
            reception_time: record.reception_time,
            timestamp_dms: record.device_timestamp,
            ecu: record.ecu_id,
            apid: record.application_id,
            ctid: record.context_id,
            lifecycle_id: match record.lifecycle_id {
                Some(id) => id,
                None => 0,
            },
            htyp: record.htyp,
            mcnt: record.mcnt,
            verb_mstp_mtin: record.verb_mstp_mtin,
            noar: record.noar,
            payload_as_text,
        }
    }
}

impl BinType {
    /// The frame that tells how many records were ingested so far.
    pub fn file_info(nr_msgs: u32) -> (frame: BinType)
        ensures
            frame matches BinType::FileInfo(info) && info.nr_msgs == nr_msgs,
    {
        BinType::FileInfo(BinFileInfo { nr_msgs })
    }

    /// The frame with the lifecycles, in the order given.
    pub fn lifecycles(lifecycles: &Vec<Lifecycle>) -> (frame: BinType)
        ensures
            frame matches BinType::Lifecycles(list) && list@ == bin_lifecycles(lifecycles@),
    {
        let mut list: Vec<BinLifecycle> = Vec::new();
        let mut i: usize = 0;
        while i < lifecycles.len()
            invariant
                i <= lifecycles@.len(),
                list@ == bin_lifecycles(lifecycles@.take(i as int)),
            decreases lifecycles@.len() - i,
        {
            list.push(BinLifecycle::from_lifecycle(&lifecycles[i]));
            assert(list@ =~= bin_lifecycles(lifecycles@.take(i + 1)));
            i = i + 1;
        }
        assert(lifecycles@.take(i as int) =~= lifecycles@);
        BinType::Lifecycles(list)
    }

    /// The frame with records for the stream `stream_id`.
    pub fn messages(stream_id: u32, messages: Vec<BinDltMsg>) -> (frame: BinType)
        ensures
            frame matches BinType::DltMsgs(batch) && batch.0 == stream_id && batch.1 == messages,
    {
        BinType::DltMsgs((stream_id, messages))
    }
}

} // verus!
