use adlt::convert::convert;
use adlt::convert::default_options;
use adlt::convert::ConvertOptions;
use adlt::convert::SourceSummary;
use adlt::frame::encode_frame;
use adlt::options::OutputStyle;
use adlt::record::TraceRecord;

const E1: u32 = 0x45310000;
const E2: u32 = 0x45320000;

fn frame(ecu_id: u32, device_timestamp: u32, reception_time: u64) -> Vec<u8> {
    let record = TraceRecord {
        index: 0,
        reception_time,
        device_timestamp,
        ecu_id,
        session_id: 0,
        application_id: 0x41505031,
        context_id: 0x43545831,
        htyp: 0x35,
        mcnt: 0,
        verb_mstp_mtin: 0x41,
        noar: 1,
        lifecycle_id: None,
        payload: vec![0xab, 0xcd],
    };
    encode_frame(&record).unwrap()
}

fn indices(records: &[TraceRecord]) -> Vec<u32> {
    records.iter().map(|r| r.index).collect()
}

#[test]
fn the_defaults_are_those_of_a_plain_run() {
    assert_eq!(
        default_options(),
        ConvertOptions {
            output_style: OutputStyle::Silent,
            sort_by_time: false,
            index_first: 0,
            index_last: u32::MAX,
            lifecycle_ids: vec![],
            tolerance: 10,
            window: 2_000_000,
            max_lifecycles: 3,
        }
    );
}

#[test]
fn a_reset_of_the_device_time_gives_two_lifecycles() {
    let mut data: Vec<u8> = Vec::new();
    data.extend(frame(E1, 100_000, 100_000_000));
    data.extend(frame(E1, 200_000, 110_000_000));
    data.extend(frame(E1, 300_000, 120_000_000));
    data.extend(frame(E1, 0, 500_000_000));
    let report = convert(&vec![data], &default_options());
    assert_eq!(report.number_messages, 4);
    assert_eq!(report.lifecycles.len(), 2);
    assert_eq!(report.lifecycles[0].id, 1);
    assert_eq!(report.lifecycles[0].ecu_id, E1);
    assert_eq!(report.lifecycles[0].message_count, 3);
    assert_eq!(report.lifecycles[0].start_time, 90_000_000);
    assert_eq!(report.lifecycles[0].end_time, 120_000_000);
    assert_eq!(report.lifecycles[1].id, 2);
    assert_eq!(report.lifecycles[1].ecu_id, E1);
    assert_eq!(report.lifecycles[1].message_count, 1);
    assert_eq!(report.lifecycles[1].start_time, 500_000_000);
    let ids: Vec<Option<u32>> = report.output.iter().map(|r| r.lifecycle_id).collect();
    assert_eq!(ids, vec![Some(1), Some(1), Some(1), Some(2)]);
    assert_eq!(indices(&report.output), vec![0, 1, 2, 3]);
}

#[test]
fn a_reset_after_small_device_times_gives_two_lifecycles() {
    let mut data: Vec<u8> = Vec::new();
    data.extend(frame(E1, 100, 7_000_000));
    data.extend(frame(E1, 200, 7_010_000));
    data.extend(frame(E1, 300, 7_020_000));
    data.extend(frame(E1, 0, 9_000_000));
    for tolerance in [0u32, 10, 10_000] {
        let mut options = default_options();
        options.tolerance = tolerance;
        let report = convert(&vec![data.clone()], &options);
        assert_eq!(report.lifecycles.len(), 2);
        assert_eq!(report.lifecycles[0].message_count, 3);
        assert_eq!(report.lifecycles[0].start_time, 6_990_000);
        assert_eq!(report.lifecycles[1].message_count, 1);
        assert_eq!(report.lifecycles[1].start_time, 9_000_000);
        assert_eq!(report.lifecycles[1].end_time, 9_000_000);
        let ids: Vec<Option<u32>> = report.output.iter().map(|r| r.lifecycle_id).collect();
        assert_eq!(ids, vec![Some(1), Some(1), Some(1), Some(2)]);
    }
}

#[test]
fn sources_of_frames_only_are_counted_in_full() {
    let mut first: Vec<u8> = Vec::new();
    for i in 0..3u32 {
        first.extend(frame(E1, 1000 + i, 1_000_000));
    }
    let second = frame(E2, 7, 1_000_000);
    let total = (first.len() + second.len()) as u64;
    let report = convert(&vec![first, vec![], second], &default_options());
    assert_eq!(report.number_messages, 4);
    assert_eq!(report.bytes_processed, total);
    assert_eq!(total, 160);
    assert_eq!(indices(&report.output), vec![0, 1, 2, 3]);
    assert!(report.sources.iter().all(|s| s.skipped.is_empty()));
    assert_eq!(report.sources.iter().map(|s| s.consumed).collect::<Vec<usize>>(), vec![120, 0, 40]);
}

#[test]
fn sources_are_read_in_the_order_given_and_summed_up() {
    let mut first = frame(E1, 10, 5_000_000);
    first.extend(&[0u8; 3]);
    first.extend(frame(E1, 20, 5_000_100));
    let second = frame(E2, 5, 1_000_000);
    let report = convert(&vec![first, vec![], second], &default_options());
    assert_eq!(report.number_messages, 3);
    assert_eq!(indices(&report.output), vec![0, 1, 2]);
    assert_eq!(
        report.output.iter().map(|r| r.reception_time).collect::<Vec<u64>>(),
        vec![5_000_000, 5_000_100, 1_000_000]
    );
    assert_eq!(
        report.sources,
        vec![
            SourceSummary { records: 2, skipped: vec![40, 41, 42], consumed: 83 },
            SourceSummary { records: 0, skipped: vec![], consumed: 0 },
            SourceSummary { records: 1, skipped: vec![], consumed: 40 },
        ]
    );
    assert_eq!(report.lifecycles.len(), 2);
    assert_eq!(report.bytes_processed, 123);
}

#[test]
fn sorting_brings_the_records_into_time_order() {
    let mut data: Vec<u8> = Vec::new();
    data.extend(frame(E1, 30, 1_000_300));
    data.extend(frame(E2, 10, 1_000_100));
    data.extend(frame(E1, 40, 1_000_200));
    let plain = convert(&vec![data.clone()], &default_options());
    assert_eq!(indices(&plain.output), vec![0, 1, 2]);
    let mut options = default_options();
    options.sort_by_time = true;
    let sorted = convert(&vec![data], &options);
    assert_eq!(indices(&sorted.output), vec![1, 2, 0]);
    assert_eq!(sorted.lifecycles, plain.lifecycles);
}

#[test]
fn the_filter_is_applied_to_the_output_only() {
    let mut data: Vec<u8> = Vec::new();
    for i in 0..6u32 {
        let ecu = if i % 2 == 0 { E1 } else { E2 };
        data.extend(frame(ecu, 1000 + i, 1_000_000 + u64::from(i)));
    }
    let mut options = default_options();
    options.index_first = 1;
    options.index_last = 4;
    options.lifecycle_ids = vec![2];
    let report = convert(&vec![data], &options);
    assert_eq!(indices(&report.output), vec![1, 3]);
    assert_eq!(report.number_messages, 6);
    assert_eq!(report.lifecycles.len(), 2);
    assert_eq!(report.lifecycles[0].message_count, 3);
    assert_eq!(report.lifecycles[1].message_count, 3);
}

#[test]
fn nothing_to_read_gives_an_empty_report() {
    let report = convert(&vec![], &default_options());
    assert_eq!(report.output, vec![]);
    assert_eq!(report.lifecycles, vec![]);
    assert_eq!(report.sources, vec![]);
    assert_eq!(report.number_messages, 0);
    assert_eq!(report.bytes_processed, 0);
}
