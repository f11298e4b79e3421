use adlt::frame::encode_frame;
use adlt::frame::header_length;
use adlt::frame::parse_frame;
use adlt::frame::FrameError;
use adlt::reader::read_source;
use adlt::reader::read_sources;
use adlt::reader::StreamReader;
use adlt::record::TraceRecord;

fn sample(ecu_id: u32, device_timestamp: u32, reception_time: u64, payload: Vec<u8>) -> TraceRecord {
    TraceRecord {
        index: 0,
        reception_time,
        device_timestamp,
        ecu_id,
        session_id: 0,
        application_id: 0x41505031,
        context_id: 0x43545831,
        htyp: 0x35,
        mcnt: 7,
        verb_mstp_mtin: 0x41,
        noar: 1,
        lifecycle_id: None,
        payload,
    }
}

fn raw_frame() -> Vec<u8> {
    let mut bytes: Vec<u8> = Vec::new();
    bytes.extend_from_slice(b"DLT\x01");
    bytes.extend_from_slice(&[0x10, 0x00, 0x00, 0x00]);
    bytes.extend_from_slice(&[0x20, 0xa1, 0x07, 0x00]);
    bytes.extend_from_slice(b"ECU1");
    bytes.extend_from_slice(&[0x35, 0x07, 0x00, 0x18]);
    bytes.extend_from_slice(b"ECU2");
    bytes.extend_from_slice(&[0x00, 0x00, 0x30, 0x39]);
    bytes.extend_from_slice(&[0x41, 0x01]);
    bytes.extend_from_slice(b"APP1");
    bytes.extend_from_slice(b"CTX1");
    bytes.extend_from_slice(&[0xde, 0xad]);
    bytes
}

#[test]
fn parse_reads_every_field_of_a_frame() {
    let bytes = raw_frame();
    assert_eq!(bytes.len(), 40);
    let (consumed, record) = parse_frame(&bytes, 5).unwrap();
    assert_eq!(consumed, 40);
    assert_eq!(
        record,
        TraceRecord {
            index: 5,
            reception_time: 16_500_000,
            device_timestamp: 12345,
            ecu_id: 0x45435532,
            session_id: 0,
            application_id: 0x41505031,
            context_id: 0x43545831,
            htyp: 0x35,
            mcnt: 7,
            verb_mstp_mtin: 0x41,
            noar: 1,
            lifecycle_id: None,
            payload: vec![0xde, 0xad],
        }
    );
}

#[test]
fn parse_takes_the_ecu_of_the_storage_header_without_one_in_the_record_header() {
    let mut bytes: Vec<u8> = Vec::new();
    bytes.extend_from_slice(b"DLT\x01");
    bytes.extend_from_slice(&[1, 0, 0, 0, 2, 0, 0, 0]);
    bytes.extend_from_slice(b"ECU1");
    bytes.extend_from_slice(&[0x20, 0x03, 0x00, 0x05, 0xaa]);
    let (consumed, record) = parse_frame(&bytes, 0).unwrap();
    assert_eq!(consumed, 21);
    assert_eq!(record.ecu_id, 0x45435531);
    assert_eq!(record.reception_time, 1_000_002);
    assert_eq!(record.device_timestamp, 0);
    assert_eq!(record.application_id, 0);
    assert_eq!(record.context_id, 0);
    assert_eq!(record.mcnt, 3);
    assert_eq!(record.payload, vec![0xaa]);
}

#[test]
fn parse_reads_the_session_id() {
    let mut record = sample(0x45435531, 9, 1_000_000, vec![1, 2, 3]);
    record.htyp = 0x3d;
    record.session_id = 0x01020304;
    let bytes = encode_frame(&record).unwrap();
    assert_eq!(bytes.len(), 16 + 26 + 3);
    assert_eq!(&bytes[24..28], &[1, 2, 3, 4]);
    let (consumed, again) = parse_frame(&bytes, 0).unwrap();
    assert_eq!(consumed, 45);
    assert_eq!(again, record);
}

#[test]
fn parse_rejects_short_input_as_incomplete() {
    let bytes = raw_frame();
    assert_eq!(parse_frame(&bytes[..19], 0), Err(FrameError::Incomplete));
    assert_eq!(parse_frame(&[], 0), Err(FrameError::Incomplete));
    assert_eq!(parse_frame(&[0xff; 19], 0), Err(FrameError::Incomplete));
}

#[test]
fn parse_rejects_a_wrong_pattern_as_malformed() {
    let mut bytes = raw_frame();
    bytes[3] = 0x02;
    assert_eq!(parse_frame(&bytes, 0), Err(FrameError::Malformed));
    assert_eq!(parse_frame(&[0xff; 20], 0), Err(FrameError::Malformed));
}

#[test]
fn parse_rejects_a_length_below_the_header_as_malformed() {
    let mut bytes = raw_frame();
    bytes[19] = 21;
    assert_eq!(parse_frame(&bytes, 0), Err(FrameError::Malformed));
    bytes[19] = 22;
    let (consumed, record) = parse_frame(&bytes, 0).unwrap();
    assert_eq!(consumed, 38);
    assert_eq!(record.payload, Vec::<u8>::new());
}

#[test]
fn parse_reports_a_cut_frame_as_incomplete() {
    let bytes = raw_frame();
    assert_eq!(parse_frame(&bytes[..39], 0), Err(FrameError::Incomplete));
}

#[test]
fn header_length_counts_the_optional_fields() {
    assert_eq!(header_length(0x00), 4);
    assert_eq!(header_length(0x01), 14);
    assert_eq!(header_length(0x04), 8);
    assert_eq!(header_length(0x08), 8);
    assert_eq!(header_length(0x10), 8);
    assert_eq!(header_length(0x1d), 26);
    assert_eq!(header_length(0x35), 22);
}

#[test]
fn encode_writes_the_bytes_of_a_frame() {
    let mut record = sample(0x45435532, 12345, 16_500_000, vec![0xde, 0xad]);
    let mut expected = raw_frame();
    expected[12..16].copy_from_slice(b"ECU2");
    assert_eq!(encode_frame(&record), Some(expected));
    record.index = 77;
    record.lifecycle_id = Some(3);
    let bytes = encode_frame(&record).unwrap();
    let (_, again) = parse_frame(&bytes, 77).unwrap();
    assert_eq!(again.lifecycle_id, None);
    assert_eq!(again.index, 77);
}

#[test]
fn encode_refuses_what_no_frame_can_hold() {
    let fits = sample(1, 1, 1, vec![0; 0xffff - 22]);
    assert_eq!(encode_frame(&fits).unwrap().len(), 16 + 0xffff);
    let too_long = sample(1, 1, 1, vec![0; 0xffff - 21]);
    assert_eq!(encode_frame(&too_long), None);
    let latest = sample(1, 1, 4_294_967_295_999_999, vec![]);
    assert!(encode_frame(&latest).is_some());
    let too_late = sample(1, 1, 4_294_967_296_000_000, vec![]);
    assert_eq!(encode_frame(&too_late), None);
}

#[test]
fn frames_only_are_read_completely() {
    let mut data: Vec<u8> = Vec::new();
    let mut expected: Vec<TraceRecord> = Vec::new();
    for i in 0..5u32 {
        let mut record = sample(0x45435531, 100 + i, 1_000_000 + u64::from(i), vec![i as u8; i as usize]);
        data.extend(encode_frame(&record).unwrap());
        record.index = 10 + i;
        expected.push(record);
    }
    let out = read_source(&data, 10);
    assert_eq!(out.records, expected);
    assert_eq!(out.consumed, data.len());
    assert_eq!(out.skipped, Vec::<usize>::new());
    assert_eq!(out.next_index, 15);
}

#[test]
fn indices_are_contiguous_whatever_is_skipped() {
    let frame = encode_frame(&sample(1, 2, 3, vec![9])).unwrap();
    let mut data: Vec<u8> = vec![0x00, 0x44];
    data.extend(&frame);
    data.extend(&[0x4c; 7]);
    data.extend(&frame);
    data.extend(&frame);
    data.extend(&[0xee; 25]);
    let out = read_source(&data, 0);
    let indices: Vec<u32> = out.records.iter().map(|r| r.index).collect();
    assert_eq!(indices, vec![0, 1, 2]);
    assert_eq!(out.next_index, 3);
    let mut skipped: Vec<usize> = vec![0, 1];
    skipped.extend(41..48);
    skipped.extend(126..132);
    assert_eq!(out.skipped, skipped);
    assert_eq!(out.consumed, 132);
    assert_eq!(data.len(), 151);
}

#[test]
fn a_corrupted_span_is_skipped_and_recorded() {
    let first = encode_frame(&sample(0x45310000, 10, 1_000_000, vec![1, 2])).unwrap();
    let second = encode_frame(&sample(0x45310000, 20, 1_000_100, vec![7; 19])).unwrap();
    assert_eq!(first.len(), 40);
    assert_eq!(second.len(), 57);
    let mut data = first.clone();
    data.extend(&[0xff, 0xfe, 0xfd]);
    data.extend(&second);
    assert_eq!(data.len(), 100);
    let out = read_source(&data, 0);
    assert_eq!(out.records.len(), 2);
    assert_eq!(out.records[0].index, 0);
    assert_eq!(out.records[0].payload, vec![1, 2]);
    assert_eq!(out.records[1].index, 1);
    assert_eq!(out.records[1].payload, vec![7; 19]);
    assert_eq!(out.skipped, vec![40, 41, 42]);
    assert_eq!(out.consumed, 100);
}

#[test]
fn a_source_that_ends_in_a_frame_stops_there() {
    let frame = encode_frame(&sample(1, 2, 3, vec![9, 9])).unwrap();
    let mut data = frame.clone();
    data.extend(&frame[..30]);
    let out = read_source(&data, 0);
    assert_eq!(out.records.len(), 1);
    assert_eq!(out.consumed, 40);
    assert_eq!(out.skipped, Vec::<usize>::new());
}

#[test]
fn reading_stops_when_no_index_is_left() {
    let frame = encode_frame(&sample(1, 2, 3, vec![])).unwrap();
    let mut data = frame.clone();
    data.extend(&frame);
    let out = read_source(&data, u32::MAX - 1);
    assert_eq!(out.records.len(), 1);
    assert_eq!(out.records[0].index, u32::MAX - 1);
    assert_eq!(out.next_index, u32::MAX);
    assert_eq!(out.consumed, 38);
    let none = read_source(&data, u32::MAX);
    assert_eq!(none.records.len(), 0);
    assert_eq!(none.consumed, 0);
}

#[test]
fn sources_share_one_index_counter() {
    let frame = encode_frame(&sample(1, 2, 3, vec![5])).unwrap();
    let mut first = frame.clone();
    first.extend(&frame);
    first.extend(&[1, 2, 3]);
    let second: Vec<u8> = vec![];
    let mut third = vec![0xab];
    third.extend(&frame);
    let outcomes = read_sources(&vec![first, second, third], 4);
    assert_eq!(outcomes.len(), 3);
    assert_eq!(outcomes[0].records.len(), 2);
    assert_eq!(outcomes[0].records[1].index, 5);
    assert_eq!(outcomes[0].consumed, 78);
    assert_eq!(outcomes[0].next_index, 6);
    assert_eq!(outcomes[1].records.len(), 0);
    assert_eq!(outcomes[1].next_index, 6);
    assert_eq!(outcomes[2].records.len(), 1);
    assert_eq!(outcomes[2].records[0].index, 6);
    assert_eq!(outcomes[2].skipped, vec![0]);
    assert_eq!(outcomes[2].consumed, 40);
    assert_eq!(outcomes[2].next_index, 7);
}

#[test]
fn a_stream_read_in_pieces_gives_what_it_gives_at_once() {
    let mut data: Vec<u8> = vec![0x44, 0x4c];
    for i in 0..6u32 {
        data.extend(encode_frame(&sample(7, i, u64::from(i), vec![i as u8; 3 * i as usize])).unwrap());
        data.extend(vec![0xff; i as usize]);
    }
    let whole = read_source(&data, 3);
    for piece in [1usize, 7, 19, 20, 21, 64, 1000] {
        let mut records: Vec<TraceRecord> = Vec::new();
        let mut skipped: Vec<usize> = Vec::new();
        let mut pending: Vec<u8> = Vec::new();
        let mut base: usize = 0;
        let mut index: u32 = 3;
        for chunk in data.chunks(piece) {
            pending.extend_from_slice(chunk);
            let out = read_source(&pending, index);
            skipped.extend(out.skipped.iter().map(|o| o + base));
            base += out.consumed;
            index = out.next_index;
            pending.drain(..out.consumed);
            records.extend(out.records);
        }
        assert_eq!(records, whole.records);
        assert_eq!(skipped, whole.skipped);
        assert_eq!(base, whole.consumed);
        assert_eq!(index, whole.next_index);
    }
}

#[test]
fn a_stream_reader_keeps_what_is_no_frame_yet() {
    let frame = encode_frame(&sample(7, 1, 2, vec![1, 2, 3])).unwrap();
    assert_eq!(frame.len(), 41);
    let mut reader = StreamReader::new(9);
    assert_eq!(reader.index(), 9);
    let out = reader.feed(&frame[..30]);
    assert_eq!(out.records.len(), 0);
    assert_eq!(out.consumed, 0);
    assert_eq!(reader.pending_len(), 30);
    let mut rest = frame[30..].to_vec();
    rest.extend(&[0xff; 25]);
    let out = reader.feed(&rest);
    assert_eq!(out.records.len(), 1);
    assert_eq!(out.records[0].index, 9);
    assert_eq!(out.records[0].payload, vec![1, 2, 3]);
    assert_eq!(out.consumed, 47);
    assert_eq!(out.skipped, vec![41, 42, 43, 44, 45, 46]);
    assert_eq!(reader.pending_len(), 19);
    assert_eq!(reader.index(), 10);
    let out = reader.feed(&[]);
    assert_eq!(out.consumed, 0);
    assert_eq!(reader.pending_len(), 19);
}

#[test]
fn a_stream_reader_reads_in_pieces_what_is_read_at_once() {
    let mut data: Vec<u8> = vec![];
    for i in 0..9u32 {
        data.extend(vec![0x44; (i % 3) as usize]);
        data.extend(encode_frame(&sample(7, i, u64::from(i), vec![i as u8; 5 * i as usize])).unwrap());
    }
    let whole = read_source(&data, 0);
    assert_eq!(whole.records.len(), 9);
    for piece in [1usize, 13, 40, 41, 500] {
        let mut reader = StreamReader::new(0);
        let mut records: Vec<TraceRecord> = Vec::new();
        let mut skipped: Vec<usize> = Vec::new();
        let mut base: usize = 0;
        for chunk in data.chunks(piece) {
            let out = reader.feed(chunk);
            skipped.extend(out.skipped.iter().map(|o| o + base));
            base += out.consumed;
            records.extend(out.records);
        }
        assert_eq!(records, whole.records);
        assert_eq!(skipped, whole.skipped);
        assert_eq!(base, whole.consumed);
        assert_eq!(reader.index(), whole.next_index);
    }
}
