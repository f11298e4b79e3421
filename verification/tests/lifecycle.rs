use adlt::lifecycle::control_request;
use adlt::lifecycle::first_entry;
use adlt::lifecycle::lifecycles_of_bags;
use adlt::lifecycle::Lifecycle;
use adlt::lifecycle::LifecycleTracker;
use adlt::record::TraceRecord;

const E1: u32 = 0x45310000;
const E2: u32 = 0x45320000;

fn message(ecu_id: u32, device_timestamp: u32, reception_time: u64) -> TraceRecord {
    TraceRecord {
        index: 0,
        reception_time,
        device_timestamp,
        ecu_id,
        session_id: 0,
        application_id: 1,
        context_id: 2,
        htyp: 0x35,
        mcnt: 0,
        verb_mstp_mtin: 0x41,
        noar: 1,
        lifecycle_id: None,
        payload: vec![1, 2, 3],
    }
}

fn request(ecu_id: u32, device_timestamp: u32, reception_time: u64) -> TraceRecord {
    let mut record = message(ecu_id, device_timestamp, reception_time);
    record.verb_mstp_mtin = 0x16;
    record
}

#[test]
fn the_first_record_begins_lifecycle_one() {
    let mut tracker = LifecycleTracker::new(10);
    let before = message(E1, 50_000, 10_000_000);
    let after = tracker.assign(message(E1, 50_000, 10_000_000));
    assert_eq!(after.lifecycle_id, Some(1));
    assert_eq!(TraceRecord { lifecycle_id: None, ..after }, before);
    assert_eq!(
        tracker.lifecycles_vec(),
        vec![Lifecycle {
            id: 1,
            ecu_id: E1,
            start_time: 5_000_000,
            end_time: 10_000_000,
            message_count: 1,
            only_control_requests: false,
            last_device_timestamp: 50_000,
        }]
    );
    assert_eq!(tracker.lifecycle_count(), 1);
}

#[test]
fn the_start_time_is_never_below_zero() {
    let mut tracker = LifecycleTracker::new(10);
    tracker.assign(message(E1, 50_000, 4_999_999));
    assert_eq!(tracker.lifecycles_vec()[0].start_time, 0);
    assert_eq!(tracker.lifecycles_vec()[0].end_time, 4_999_999);
}

#[test]
fn a_record_that_goes_on_extends_its_lifecycle() {
    let mut tracker = LifecycleTracker::new(10);
    tracker.assign(message(E1, 1000, 1_000_000));
    let second = tracker.assign(message(E1, 2000, 1_100_000));
    let third = tracker.assign(message(E1, 1990, 1_050_000));
    assert_eq!(second.lifecycle_id, Some(1));
    assert_eq!(third.lifecycle_id, Some(1));
    assert_eq!(
        tracker.lifecycles_vec(),
        vec![Lifecycle {
            id: 1,
            ecu_id: E1,
            start_time: 900_000,
            end_time: 1_100_000,
            message_count: 3,
            only_control_requests: false,
            last_device_timestamp: 1990,
        }]
    );
}

#[test]
fn a_fall_beyond_the_tolerance_begins_a_lifecycle() {
    let mut tracker = LifecycleTracker::new(10);
    tracker.assign(message(E1, 2000, 1_000_000));
    let within = tracker.assign(message(E1, 1990, 1_000_001));
    assert_eq!(within.lifecycle_id, Some(1));
    let beyond = tracker.assign(message(E1, 1979, 1_000_002));
    assert_eq!(beyond.lifecycle_id, Some(2));
    let table = tracker.lifecycles_vec();
    assert_eq!(table.len(), 2);
    assert_eq!(table[0].message_count, 2);
    assert_eq!(table[0].last_device_timestamp, 1990);
    assert_eq!(table[1].id, 2);
    assert_eq!(table[1].start_time, 1_000_002 - 197_900);
}

#[test]
fn a_slow_drift_back_stays_in_the_lifecycle() {
    let mut tracker = LifecycleTracker::new(10);
    let ids: Vec<Option<u32>> = [100u32, 95, 88, 78, 79]
        .iter()
        .map(|ts| tracker.assign(message(E1, *ts, 1_000_000)).lifecycle_id)
        .collect();
    assert_eq!(ids, vec![Some(1); 5]);
    assert_eq!(tracker.lifecycles_vec()[0].last_device_timestamp, 79);
    assert_eq!(tracker.lifecycles_vec()[0].message_count, 5);
}

#[test]
fn a_fall_to_near_zero_begins_a_lifecycle() {
    let mut tracker = LifecycleTracker::new(10);
    assert_eq!(tracker.assign(message(E1, 25, 1)).lifecycle_id, Some(1));
    assert_eq!(tracker.assign(message(E1, 18, 2)).lifecycle_id, Some(1));
    assert_eq!(tracker.assign(message(E1, 11, 3)).lifecycle_id, Some(1));
    assert_eq!(tracker.assign(message(E1, 10, 4)).lifecycle_id, Some(2));
    assert_eq!(tracker.assign(message(E1, 10, 5)).lifecycle_id, Some(2));
    assert_eq!(tracker.assign(message(E1, 12, 6)).lifecycle_id, Some(2));
    assert_eq!(tracker.assign(message(E1, 9, 7)).lifecycle_id, Some(3));
    assert_eq!(tracker.assign(message(E1, 0, 8)).lifecycle_id, Some(4));
    assert_eq!(tracker.assign(message(E1, 0, 9)).lifecycle_id, Some(4));
}

#[test]
fn a_fall_to_zero_begins_a_lifecycle_whatever_the_tolerance() {
    for tolerance in [0u32, 1, 10, 299, 300, 10_000, u32::MAX] {
        for times in [[100u32, 200, 300], [1, 2, 3], [0, 1, 2], [5, 4_000_000, u32::MAX]] {
            let mut tracker = LifecycleTracker::new(tolerance);
            let mut ids: Vec<Option<u32>> = Vec::new();
            for (i, ts) in times.iter().enumerate() {
                ids.push(tracker.assign(message(E1, *ts, 1_000_000_000 + i as u64)).lifecycle_id);
            }
            ids.push(tracker.assign(message(E1, 0, 2_000_000_000)).lifecycle_id);
            assert_eq!(ids, vec![Some(1), Some(1), Some(1), Some(2)]);
            let table = tracker.lifecycles_vec();
            assert_eq!(table.len(), 2);
            assert_eq!(table[0].message_count, 3);
            assert_eq!(table[1].message_count, 1);
            assert_eq!(table[1].start_time, 2_000_000_000);
            assert_eq!(table[1].ecu_id, E1);
            assert!(table[0].start_time <= table[0].end_time);
            assert!(table[1].start_time <= table[1].end_time);
        }
    }
}

#[test]
fn a_reset_to_zero_begins_a_lifecycle_with_a_greater_id() {
    let mut tracker = LifecycleTracker::new(10_000);
    tracker.assign(message(E1, 100_000, 100_000_000));
    tracker.assign(message(E2, 5, 100_000_001));
    tracker.assign(message(E1, 200_000, 110_000_000));
    let reset = tracker.assign(message(E1, 0, 200_000_000));
    assert_eq!(reset.lifecycle_id, Some(3));
    let table = tracker.lifecycles_vec();
    assert_eq!(table.iter().map(|l| l.id).collect::<Vec<u32>>(), vec![1, 2, 3]);
    assert_eq!(table.iter().map(|l| l.ecu_id).collect::<Vec<u32>>(), vec![E1, E2, E1]);
    assert_eq!(table[2].start_time, 200_000_000);
    assert_eq!(table[2].end_time, 200_000_000);
    let next = tracker.assign(message(E1, 10, 200_001_000));
    assert_eq!(next.lifecycle_id, Some(3));
}

#[test]
fn every_device_has_its_own_lifecycle() {
    let mut tracker = LifecycleTracker::new(10);
    let a = tracker.assign(message(E1, 5000, 1_000_000));
    let b = tracker.assign(message(E2, 1, 1_000_001));
    let c = tracker.assign(message(E1, 5001, 1_000_002));
    let d = tracker.assign(message(E2, 2, 1_000_003));
    assert_eq!(
        vec![a.lifecycle_id, b.lifecycle_id, c.lifecycle_id, d.lifecycle_id],
        vec![Some(1), Some(2), Some(1), Some(2)]
    );
    for stamped in [a, b, c, d] {
        let id = stamped.lifecycle_id.unwrap();
        assert_eq!(tracker.lifecycles_vec()[id as usize - 1].ecu_id, stamped.ecu_id);
    }
}

#[test]
fn the_mark_of_control_requests_only_goes_and_never_comes_back() {
    let mut tracker = LifecycleTracker::new(10);
    tracker.assign(request(E1, 1, 1));
    assert!(tracker.lifecycles_vec()[0].only_control_requests);
    tracker.assign(request(E1, 2, 2));
    assert!(tracker.lifecycles_vec()[0].only_control_requests);
    tracker.assign(message(E1, 3, 3));
    assert!(!tracker.lifecycles_vec()[0].only_control_requests);
    tracker.assign(request(E1, 4, 4));
    assert!(!tracker.lifecycles_vec()[0].only_control_requests);
    assert_eq!(tracker.lifecycles_vec()[0].message_count, 4);
}

#[test]
fn control_requests_are_told_by_type_and_extended_header() {
    assert!(control_request(&request(E1, 0, 0)));
    let mut verbose = request(E1, 0, 0);
    verbose.verb_mstp_mtin = 0x17;
    assert!(control_request(&verbose));
    let mut response = request(E1, 0, 0);
    response.verb_mstp_mtin = 0x26;
    assert!(!control_request(&response));
    let mut log = request(E1, 0, 0);
    log.verb_mstp_mtin = 0x10;
    assert!(!control_request(&log));
    let mut bare = request(E1, 0, 0);
    bare.htyp = 0x34;
    assert!(!control_request(&bare));
}

#[test]
fn the_readers_see_every_lifecycle_as_it_stands() {
    let mut tracker = LifecycleTracker::new(10);
    assert_eq!(tracker.published_lifecycles(), Vec::<Lifecycle>::new());
    tracker.assign(message(E1, 5000, 1_000_000));
    assert_eq!(tracker.published_lifecycles(), tracker.lifecycles_vec());
    tracker.assign(message(E2, 1, 1_000_001));
    tracker.assign(message(E1, 6000, 1_200_000));
    tracker.assign(message(E1, 0, 9_000_000));
    let published = tracker.published_lifecycles();
    assert_eq!(published, tracker.lifecycles_vec());
    assert_eq!(published.len(), 3);
    assert_eq!(published[0].message_count, 2);
    assert_eq!(published[0].end_time, 1_200_000);
    assert_eq!(published[2].ecu_id, E1);
}

#[test]
fn another_reader_sees_what_was_published() {
    let mut tracker = LifecycleTracker::new(10);
    let reader = tracker.reader();
    assert_eq!(reader.len(), 0);
    tracker.assign(message(E1, 5000, 1_000_000));
    tracker.assign(message(E1, 5001, 1_000_100));
    let entry = reader.get_one(&1).map(|e| *e);
    assert_eq!(entry, Some((E1, 500_000, 1_000_100, 2, false, 5001)));
    assert_eq!(reader.len(), 1);
}

#[test]
fn assign_all_attributes_in_order() {
    let mut tracker = LifecycleTracker::new(10);
    let out = tracker.assign_all(vec![
        message(E1, 5000, 1),
        message(E2, 5000, 2),
        message(E1, 100, 3),
        message(E2, 5005, 4),
    ]);
    let ids: Vec<Option<u32>> = out.iter().map(|r| r.lifecycle_id).collect();
    assert_eq!(ids, vec![Some(1), Some(2), Some(3), Some(2)]);
    assert_eq!(out.iter().map(|r| r.reception_time).collect::<Vec<u64>>(), vec![1, 2, 3, 4]);
    assert_eq!(tracker.lifecycle_count(), 3);
}

#[test]
fn first_entry_finds_the_bag_of_an_id() {
    let bags = vec![
        (2u32, vec![]),
        (1u32, vec![(E1, 1, 2, 3, true, 4)]),
        (2u32, vec![(E2, 5, 6, 7, false, 8), (E2, 9, 9, 9, false, 9)]),
    ];
    assert_eq!(first_entry(&bags, 1), Some((E1, 1, 2, 3, true, 4)));
    assert_eq!(first_entry(&bags, 2), Some((E2, 5, 6, 7, false, 8)));
    assert_eq!(first_entry(&bags, 3), None);
    let twice = vec![
        (5u32, vec![(E1, 1, 1, 1, false, 1)]),
        (5u32, vec![(E2, 2, 2, 2, false, 2)]),
    ];
    assert_eq!(first_entry(&twice, 5), Some((E1, 1, 1, 1, false, 1)));
    assert_eq!(first_entry(&vec![(5u32, vec![])], 5), None);
}

#[test]
fn the_bags_of_a_reader_give_the_lifecycles_by_their_ids() {
    let bags = vec![
        (3u32, vec![(E1, 30, 31, 32, false, 33)]),
        (1u32, vec![(E1, 10, 11, 12, true, 13)]),
        (4u32, vec![]),
        (2u32, vec![(E2, 20, 21, 22, false, 23), (E2, 0, 0, 0, false, 0)]),
        (1u32, vec![(E2, 14, 15, 16, false, 17)]),
    ];
    let lifecycles = lifecycles_of_bags(&bags);
    assert_eq!(
        lifecycles,
        vec![
            Lifecycle {
                id: 1,
                ecu_id: E1,
                start_time: 10,
                end_time: 11,
                message_count: 12,
                only_control_requests: true,
                last_device_timestamp: 13,
            },
            Lifecycle {
                id: 1,
                ecu_id: E2,
                start_time: 14,
                end_time: 15,
                message_count: 16,
                only_control_requests: false,
                last_device_timestamp: 17,
            },
            Lifecycle {
                id: 2,
                ecu_id: E2,
                start_time: 20,
                end_time: 21,
                message_count: 22,
                only_control_requests: false,
                last_device_timestamp: 23,
            },
            Lifecycle {
                id: 3,
                ecu_id: E1,
                start_time: 30,
                end_time: 31,
                message_count: 32,
                only_control_requests: false,
                last_device_timestamp: 33,
            },
        ]
    );
    assert_eq!(lifecycles_of_bags(&vec![]), vec![]);
}

#[test]
fn what_a_reader_collects_is_what_the_tracker_holds() {
    let mut tracker = LifecycleTracker::new(10);
    let reader = tracker.reader();
    for i in 0..20u32 {
        tracker.assign(message(E1 + i % 5, 1000 * (20 - i), u64::from(i) * 1_000_000));
    }
    let bags: Vec<(u32, Vec<(u32, u64, u64, u32, bool, u32)>)> =
        reader.map_into(|id, bag| (*id, bag.iter().copied().collect()));
    assert_eq!(lifecycles_of_bags(&bags), tracker.lifecycles_vec());
    assert_eq!(tracker.lifecycle_count(), 20);
}

#[test]
fn the_message_count_stops_at_its_largest() {
    let mut tracker = LifecycleTracker::new(0);
    tracker.assign(message(E1, 1, 1));
    tracker.assign(message(E1, 1, 1));
    tracker.assign(message(E1, 2, 0));
    let table = tracker.lifecycles_vec();
    assert_eq!(table.len(), 1);
    assert_eq!(table[0].message_count, 3);
    assert_eq!(table[0].end_time, 1);
    assert_eq!(table[0].last_device_timestamp, 2);
}
