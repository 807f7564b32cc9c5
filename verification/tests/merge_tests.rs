use data_collection::trips::{derive_trip, RawDeparture, StationData, CANCELLED_DELAY};

fn raw(
    trip_id: Option<&str>,
    product: Option<&str>,
    cancelled: bool,
    delay: Option<i32>,
) -> RawDeparture {
    RawDeparture {
        trip_id: trip_id.map(|s| s.to_owned()),
        product: product.map(|s| s.to_owned()),
        cancelled,
        delay,
    }
}

fn get_delay(data: &StationData, trip_id: &str) -> Option<i32> {
    for (id, trip) in data.trips.iter() {
        if id == trip_id {
            return Some(trip.delay);
        }
    }
    None
}

fn get_product(data: &StationData, trip_id: &str) -> Option<String> {
    for (id, trip) in data.trips.iter() {
        if id == trip_id {
            return Some(trip.product_type.clone());
        }
    }
    None
}

#[test]
fn merge_records_batch() {
    let mut data = StationData::new();
    let batch = vec![
        raw(Some("t1"), Some("regional"), false, Some(120)),
        raw(Some("t2"), Some("suburban"), false, None),
    ];
    let dropped = data.merge(&batch);
    assert_eq!(dropped, 0);
    assert_eq!(data.len(), 2);
    assert_eq!(get_delay(&data, "t1"), Some(120));
    assert_eq!(get_product(&data, "t1"), Some("regional".to_owned()));
    assert_eq!(get_delay(&data, "t2"), Some(0));
}

#[test]
fn merge_is_idempotent() {
    // Start both records from the same non-empty state, then apply the
    // same batch once and twice: the results agree.
    let prior = vec![
        raw(Some("t0"), Some("suburban"), false, Some(30)),
        raw(Some("t2"), Some("regional"), false, Some(999)),
    ];
    let batch = vec![
        raw(Some("t1"), Some("regional"), false, Some(400)),
        raw(Some("t2"), Some("national"), true, Some(50)),
        raw(None, Some("suburban"), false, Some(10)),
    ];
    let mut once = StationData::new();
    once.merge(&prior);
    once.merge(&batch);
    let mut twice = StationData::new();
    twice.merge(&prior);
    twice.merge(&batch);
    twice.merge(&batch);

    assert_eq!(once.len(), twice.len());
    for (id, trip) in once.trips.iter() {
        assert_eq!(get_delay(&twice, id), Some(trip.delay));
        assert_eq!(get_product(&twice, id), Some(trip.product_type.clone()));
    }
}

#[test]
fn merge_dedups_within_batch_last_wins() {
    let mut data = StationData::new();
    let batch = vec![
        raw(Some("t1"), Some("regional"), false, Some(100)),
        raw(Some("t1"), Some("national"), false, Some(200)),
        raw(Some("t1"), Some("suburban"), false, Some(300)),
    ];
    data.merge(&batch);
    assert_eq!(data.len(), 1);
    assert_eq!(get_delay(&data, "t1"), Some(300));
    assert_eq!(get_product(&data, "t1"), Some("suburban".to_owned()));
}

#[test]
fn merge_overwrites_across_batches() {
    let mut data = StationData::new();
    data.merge(&vec![raw(Some("t1"), Some("regional"), false, Some(100))]);
    data.merge(&vec![raw(Some("t1"), Some("regional"), false, Some(700))]);
    assert_eq!(data.len(), 1);
    assert_eq!(get_delay(&data, "t1"), Some(700));
}

#[test]
fn cancelled_entry_yields_sentinel() {
    let entry = raw(Some("t9"), Some("national"), true, Some(9999));
    let (id, trip) = derive_trip(&entry).unwrap();
    assert_eq!(id, "t9".to_owned());
    assert_eq!(trip.delay, CANCELLED_DELAY);
    assert_eq!(trip.delay, -1);

    let mut data = StationData::new();
    data.merge(&vec![raw(Some("t9"), Some("national"), true, Some(9999))]);
    assert_eq!(get_delay(&data, "t9"), Some(-1));
}

#[test]
fn missing_delay_counts_as_on_time() {
    let entry = raw(Some("t3"), Some("regional"), false, None);
    let (_, trip) = derive_trip(&entry).unwrap();
    assert_eq!(trip.delay, 0);
}

#[test]
fn missing_product_maps_to_unknown() {
    let entry = raw(Some("t4"), None, false, Some(60));
    let (_, trip) = derive_trip(&entry).unwrap();
    assert_eq!(trip.product_type, "unknown".to_owned());
}

#[test]
fn entry_without_trip_id_is_malformed() {
    let entry = raw(None, Some("regional"), false, Some(60));
    assert!(derive_trip(&entry).is_err());
}

#[test]
fn merge_skips_malformed_entry_keeps_rest() {
    let mut data = StationData::new();
    let batch = vec![
        raw(Some("t1"), Some("regional"), false, Some(120)),
        raw(None, Some("regional"), false, Some(300)),
        raw(Some("t2"), Some("regional"), false, Some(420)),
    ];
    let dropped = data.merge(&batch);
    assert_eq!(dropped, 1);
    assert_eq!(data.len(), 2);
    assert_eq!(get_delay(&data, "t1"), Some(120));
    assert_eq!(get_delay(&data, "t2"), Some(420));
}
