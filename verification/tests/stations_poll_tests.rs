use data_collection::poll::{
    departure_window_start, inter_request_delay_ms, tick_action, Sweep, TickAction,
    DEFAULT_REQUESTS_PER_MINUTE,
};
use data_collection::stations::{filter_stations, Station};

fn station(id: u64, name: &str, weight: u64) -> Station {
    Station { id, name: name.to_owned(), weight }
}

#[test]
fn filter_keeps_first_occurrence_per_id() {
    let input = vec![
        station(1, "A", 500),
        station(2, "B", 600),
        station(1, "A again", 700),
    ];
    let out = filter_stations(&input, 450);
    assert_eq!(out.len(), 2);
    assert_eq!(out[0].id, 1);
    assert_eq!(out[0].name, "A".to_owned());
    assert_eq!(out[1].id, 2);
}

#[test]
fn filter_weight_cutoff_is_strict() {
    let input = vec![
        station(1, "A", 450),
        station(2, "B", 451),
        station(3, "C", 449),
    ];
    let out = filter_stations(&input, 450);
    assert_eq!(out.len(), 1);
    assert_eq!(out[0].id, 2);
}

#[test]
fn filter_dedups_before_weighing() {
    // The first occurrence of an id wins even when a later duplicate
    // would have passed the weight cutoff.
    let input = vec![station(1, "light", 100), station(1, "heavy", 900)];
    let out = filter_stations(&input, 450);
    assert_eq!(out.len(), 0);
}

#[test]
fn window_starts_fifteen_minutes_back() {
    assert_eq!(departure_window_start(1000), 100);
    assert_eq!(departure_window_start(900), 0);
}

#[test]
fn request_pacing_matches_rate() {
    assert_eq!(inter_request_delay_ms(DEFAULT_REQUESTS_PER_MINUTE), 1200);
    assert_eq!(inter_request_delay_ms(60), 1000);
    assert_eq!(inter_request_delay_ms(1), 60000);
}

#[test]
fn sweep_visits_every_station_once_in_order() {
    let mut sweep = Sweep::new(3);
    assert_eq!(sweep.next_station(), Some(0));
    assert_eq!(sweep.next_station(), Some(1));
    assert_eq!(sweep.next_station(), Some(2));
    assert_eq!(sweep.next_station(), None);
    assert_eq!(sweep.next_station(), None);
}

#[test]
fn empty_sweep_is_done_at_once() {
    let mut sweep = Sweep::new(0);
    assert_eq!(sweep.next_station(), None);
}

#[test]
fn scheduler_is_single_flight() {
    assert!(matches!(tick_action(true), TickAction::StartNext));
    assert!(matches!(tick_action(false), TickAction::WaitForPriorThenStart));
}
