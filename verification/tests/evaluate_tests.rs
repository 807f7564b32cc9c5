use data_collection::evaluate::{
    evaluate, is_delayed, matches_filter, EvalError, EvaluationMode, ProductType,
    DELAY_THRESHOLD_SECS,
};
use data_collection::stations::Station;
use data_collection::trips::{RawDeparture, StationData, Trip};

fn station(id: u64, name: &str) -> Station {
    Station { id, name: name.to_owned(), weight: 1000 }
}

fn with_trips(entries: &[(&str, &str, i32)]) -> StationData {
    let mut data = StationData::new();
    let batch: Vec<RawDeparture> = entries
        .iter()
        .map(|(id, product, delay)| RawDeparture {
            trip_id: Some((*id).to_owned()),
            product: Some((*product).to_owned()),
            cancelled: false,
            delay: Some(*delay),
        })
        .collect();
    data.merge(&batch);
    data
}

#[test]
fn threshold_is_six_minutes() {
    assert_eq!(DELAY_THRESHOLD_SECS, 360);
    let not_delayed = Trip { delay: 359, product_type: "regional".to_owned() };
    let delayed = Trip { delay: 360, product_type: "regional".to_owned() };
    assert!(!is_delayed(&not_delayed));
    assert!(is_delayed(&delayed));
}

#[test]
fn cancelled_sentinel_does_not_count_as_delayed() {
    let cancelled = Trip { delay: -1, product_type: "regional".to_owned() };
    assert!(!is_delayed(&cancelled));
}

#[test]
fn filter_matches_classes() {
    let nx = "nationalExpress".to_owned();
    let na = "national".to_owned();
    let rx = "regionalExpress".to_owned();
    let re = "regional".to_owned();
    let su = "suburban".to_owned();
    let odd = "taxi".to_owned();

    assert!(matches_filter(&nx, ProductType::NationalExpress));
    assert!(matches_filter(&nx, ProductType::AllNational));
    assert!(!matches_filter(&nx, ProductType::National));
    assert!(matches_filter(&na, ProductType::National));
    assert!(matches_filter(&na, ProductType::AllNational));
    assert!(matches_filter(&rx, ProductType::RegionalExpress));
    assert!(matches_filter(&rx, ProductType::AllRegional));
    assert!(matches_filter(&re, ProductType::Regional));
    assert!(matches_filter(&re, ProductType::AllRegional));
    assert!(!matches_filter(&re, ProductType::AllNational));
    assert!(matches_filter(&su, ProductType::Suburban));
    assert!(!matches_filter(&su, ProductType::Regional));
    assert!(matches_filter(&odd, ProductType::All));
    assert!(!matches_filter(&odd, ProductType::Regional));
    assert!(!matches_filter(&odd, ProductType::Suburban));
}

#[test]
fn metric_is_delayed_share() {
    let entries = vec![(
        station(1, "A"),
        with_trips(&[("t1", "regional", 400), ("t2", "regional", 100)]),
    )];
    let out = evaluate(&entries, ProductType::Regional, EvaluationMode::DelayPercentage).unwrap();
    assert_eq!(out.len(), 1);
    assert_eq!(out[0].id, 1);
    assert_eq!(out[0].name, "A".to_owned());
    assert_eq!(out[0].delayed, 1);
    assert_eq!(out[0].total, 2);
}

#[test]
fn empty_station_is_excluded() {
    let entries = vec![
        (station(1, "A"), with_trips(&[("t1", "regional", 400)])),
        (station(2, "B"), with_trips(&[("t2", "suburban", 500)])),
        (station(3, "C"), StationData::new()),
    ];
    let out = evaluate(&entries, ProductType::Regional, EvaluationMode::DelayPercentage).unwrap();
    assert_eq!(out.len(), 1);
    assert_eq!(out[0].id, 1);
}

#[test]
fn ranking_scenario_worst_first() {
    // A: 1 of 2 delayed = 0.5; C: 1 of 3 delayed = 1/3. A ranks first.
    let entries = vec![
        (
            station(1, "A"),
            with_trips(&[("t1", "regional", 400), ("t2", "regional", 100)]),
        ),
        (
            station(3, "C"),
            with_trips(&[("t5", "regional", 0), ("t6", "regional", 0), ("t7", "regional", 400)]),
        ),
    ];
    let out = evaluate(&entries, ProductType::Regional, EvaluationMode::DelayPercentage).unwrap();
    assert_eq!(out.len(), 2);
    assert_eq!(out[0].id, 1);
    assert_eq!(out[1].id, 3);
}

#[test]
fn ranking_tie_broken_by_station_id() {
    let entries = vec![
        (station(8, "H"), with_trips(&[("t1", "regional", 400), ("t2", "regional", 0)])),
        (station(2, "B"), with_trips(&[("t3", "regional", 500), ("t4", "regional", 10)])),
    ];
    let out = evaluate(&entries, ProductType::Regional, EvaluationMode::DelayPercentage).unwrap();
    assert_eq!(out.len(), 2);
    assert_eq!(out[0].id, 2);
    assert_eq!(out[1].id, 8);
}

#[test]
fn ranking_is_deterministic() {
    let entries = vec![
        (station(1, "A"), with_trips(&[("t1", "regional", 400), ("t2", "regional", 100)])),
        (station(2, "B"), with_trips(&[("t3", "regional", 0), ("t4", "regional", 700)])),
        (station(3, "C"), with_trips(&[("t5", "suburban", 900)])),
        (station(4, "D"), with_trips(&[("t6", "regional", 380), ("t7", "regional", 361)])),
    ];
    let first = evaluate(&entries, ProductType::Regional, EvaluationMode::DelayPercentage).unwrap();
    let second =
        evaluate(&entries, ProductType::Regional, EvaluationMode::DelayPercentage).unwrap();
    assert_eq!(first.len(), second.len());
    for (a, b) in first.iter().zip(second.iter()) {
        assert_eq!(a.id, b.id);
        assert_eq!(a.name, b.name);
        assert_eq!(a.delayed, b.delayed);
        assert_eq!(a.total, b.total);
    }
}

#[test]
fn threshold_boundary_through_evaluation() {
    // 359 seconds is not delayed, 360 is: exactly one of the two trips
    // counts as delayed.
    let entries = vec![(
        station(1, "A"),
        with_trips(&[("t1", "regional", 359), ("t2", "regional", 360)]),
    )];
    let out = evaluate(&entries, ProductType::Regional, EvaluationMode::DelayPercentage).unwrap();
    assert_eq!(out[0].delayed, 1);
    assert_eq!(out[0].total, 2);
}

#[test]
fn cancelled_trips_count_in_denominator_only() {
    // One delayed trip, one cancelled trip: metric is 1 of 2.
    let mut data = StationData::new();
    let batch = vec![
        RawDeparture {
            trip_id: Some("t1".to_owned()),
            product: Some("regional".to_owned()),
            cancelled: false,
            delay: Some(400),
        },
        RawDeparture {
            trip_id: Some("t2".to_owned()),
            product: Some("regional".to_owned()),
            cancelled: true,
            delay: Some(900),
        },
    ];
    data.merge(&batch);
    let entries = vec![(station(1, "A"), data)];
    let out = evaluate(&entries, ProductType::Regional, EvaluationMode::DelayPercentage).unwrap();
    assert_eq!(out[0].delayed, 1);
    assert_eq!(out[0].total, 2);
}

#[test]
fn average_delay_mode_is_unsupported() {
    let entries = vec![(station(1, "A"), with_trips(&[("t1", "regional", 400)]))];
    let r = evaluate(&entries, ProductType::Regional, EvaluationMode::AverageDelayTime);
    assert_eq!(r.unwrap_err(), EvalError::UnsupportedMode);
}
