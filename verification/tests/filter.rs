use adlt::filter::Filter;
use adlt::record::TraceRecord;

fn tagged(index: u32, lifecycle_id: Option<u32>) -> TraceRecord {
    TraceRecord {
        index,
        reception_time: 0,
        device_timestamp: 0,
        ecu_id: 1,
        session_id: 0,
        application_id: 0,
        context_id: 0,
        htyp: 0x20,
        mcnt: 0,
        verb_mstp_mtin: 0,
        noar: 0,
        lifecycle_id,
        payload: vec![index as u8],
    }
}

fn sample() -> Vec<TraceRecord> {
    vec![
        tagged(0, Some(1)),
        tagged(1, Some(2)),
        tagged(2, None),
        tagged(3, Some(1)),
        tagged(4, Some(3)),
        tagged(5, Some(2)),
    ]
}

fn indices(records: &[TraceRecord]) -> Vec<u32> {
    records.iter().map(|r| r.index).collect()
}

#[test]
fn the_default_filter_lets_everything_pass() {
    let filter = Filter::all();
    assert_eq!(filter.apply(sample()), sample());
    assert!(filter.accepts(&tagged(u32::MAX, None)));
}

#[test]
fn the_range_is_inclusive_at_both_ends() {
    let filter = Filter::new(1, 3, &vec![]);
    assert_eq!(indices(&filter.apply(sample())), vec![1, 2, 3]);
    assert!(!filter.accepts(&tagged(0, Some(1))));
    assert!(filter.accepts(&tagged(1, Some(1))));
    assert!(filter.accepts(&tagged(3, Some(1))));
    assert!(!filter.accepts(&tagged(4, Some(1))));
}

#[test]
fn an_empty_range_lets_nothing_pass() {
    let filter = Filter::new(3, 2, &vec![]);
    assert_eq!(filter.apply(sample()), vec![]);
}

#[test]
fn only_the_named_lifecycles_pass() {
    let filter = Filter::new(0, u32::MAX, &vec![2, 3, 2]);
    assert_eq!(indices(&filter.apply(sample())), vec![1, 4, 5]);
    assert!(!filter.accepts(&tagged(0, None)));
}

#[test]
fn range_and_lifecycles_both_have_to_hold() {
    let filter = Filter::new(2, 4, &vec![1, 3]);
    assert_eq!(indices(&filter.apply(sample())), vec![3, 4]);
}

#[test]
fn filtering_twice_gives_what_filtering_once_gives() {
    let filter = Filter::new(1, 4, &vec![1, 2]);
    let once = filter.apply(sample());
    let twice = filter.apply(filter.apply(sample()));
    assert_eq!(indices(&once), vec![1, 3]);
    assert_eq!(twice, once);
}
