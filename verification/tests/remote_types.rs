use adlt::lifecycle::Lifecycle;
use adlt::record::TraceRecord;
use adlt::remote_types::BinDltMsg;
use adlt::remote_types::BinFileInfo;
use adlt::remote_types::BinLifecycle;
use adlt::remote_types::BinType;

fn lifecycle(id: u32) -> Lifecycle {
    Lifecycle {
        id,
        ecu_id: 100 + id,
        start_time: 1000 * u64::from(id),
        end_time: 2000 * u64::from(id),
        message_count: 10 * id,
        only_control_requests: id % 2 == 0,
        last_device_timestamp: 5,
    }
}

#[test]
fn a_lifecycle_is_sent_with_its_counts_and_times() {
    assert_eq!(
        BinLifecycle::from_lifecycle(&lifecycle(3)),
        BinLifecycle { id: 3, ecu: 103, nr_msgs: 30, start_time: 3000, end_time: 6000 }
    );
}

#[test]
fn a_record_is_sent_with_its_header_and_text() {
    let record = TraceRecord {
        index: 9,
        reception_time: 8,
        device_timestamp: 7,
        ecu_id: 6,
        session_id: 55,
        application_id: 5,
        context_id: 4,
        htyp: 3,
        mcnt: 2,
        verb_mstp_mtin: 1,
        noar: 11,
        lifecycle_id: Some(12),
        payload: vec![1, 2],
    };
    let message = BinDltMsg::from_record(&record, "text".to_string());
    assert_eq!(
        message,
        BinDltMsg {
            index: 9,
            reception_time: 8,
            timestamp_dms: 7,
            ecu: 6,
            apid: 5,
            ctid: 4,
            lifecycle_id: 12,
            htyp: 3,
            mcnt: 2,
            verb_mstp_mtin: 1,
            noar: 11,
            payload_as_text: "text".to_string(),
        }
    );
    let untracked = TraceRecord { lifecycle_id: None, ..record };
    assert_eq!(BinDltMsg::from_record(&untracked, String::new()).lifecycle_id, 0);
}

#[test]
fn frames_carry_their_kind() {
    assert_eq!(BinType::file_info(17), BinType::FileInfo(BinFileInfo { nr_msgs: 17 }));
    assert_eq!(
        BinType::lifecycles(&vec![lifecycle(1), lifecycle(2)]),
        BinType::Lifecycles(vec![
            BinLifecycle { id: 1, ecu: 101, nr_msgs: 10, start_time: 1000, end_time: 2000 },
            BinLifecycle { id: 2, ecu: 102, nr_msgs: 20, start_time: 2000, end_time: 4000 },
        ])
    );
    assert_eq!(BinType::lifecycles(&vec![]), BinType::Lifecycles(vec![]));
    assert_eq!(BinType::messages(4, vec![]), BinType::DltMsgs((4, vec![])));
}
