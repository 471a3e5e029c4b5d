use std::collections::HashMap;

use mcf_timetable::footpath::Footpath;
use mcf_timetable::group::Group;
use mcf_timetable::parse::{number_in, parse_u64, read_records, text_in};
use mcf_timetable::station::Station;
use mcf_timetable::travel::decimal_string;
use mcf_timetable::trip::Trip;

fn record(fields: &[(&str, &str)]) -> HashMap<String, String> {
    fields.iter().map(|(k, v)| (k.to_string(), v.to_string())).collect()
}

#[test]
fn parse_u64_reads_like_std() {
    for s in [
        "0", "7", "123", "+7", "007", "", "+", "++1", "12a", "-1", " 1", "1 ", "18446744073709551615",
        "18446744073709551616", "99999999999999999999999", "+18446744073709551615",
    ] {
        assert_eq!(parse_u64(s), s.parse::<u64>().ok(), "input {:?}", s);
    }
    assert_eq!(parse_u64("4711"), Some(4711));
    assert_eq!(parse_u64("x"), None);
}

#[test]
fn decimal_string_writes_like_std() {
    for n in [0u64, 5, 10, 99, 100, 1234567890, u64::MAX] {
        assert_eq!(decimal_string(n), n.to_string());
    }
}

#[test]
fn record_fields() {
    let r = record(&[("id", "17"), ("name", "Central")]);
    assert_eq!(number_in(&r, "id"), 17);
    assert_eq!(text_in(&r, "name"), "Central".to_string());
}

#[test]
fn trips_from_records() {
    let rows = vec![
        record(&[("id", "1"), ("from_station", "2"), ("departure", "10"), ("to_station", "3"), ("arrival", "20"), ("capacity", "50")]),
        record(&[("id", "1"), ("from_station", "3"), ("departure", "22"), ("to_station", "4"), ("arrival", "30"), ("capacity", "50")]),
    ];
    let trips = Trip::from_maps_to_vec(&rows);
    assert_eq!(
        trips,
        vec![
            Trip { id: 1, from_station: 2, departure: 10, to_station: 3, arrival: 20, capacity: 50 },
            Trip { id: 1, from_station: 3, departure: 22, to_station: 4, arrival: 30, capacity: 50 },
        ]
    );
}

#[test]
fn footpaths_from_records() {
    let rows = vec![
        record(&[("from_station", "2"), ("to_station", "3"), ("duration", "5")]),
        record(&[("from_station", "3"), ("to_station", "2"), ("duration", "+6")]),
    ];
    let footpaths = Footpath::from_maps_to_vec(&rows);
    assert_eq!(
        footpaths,
        vec![
            Footpath { from_station: 2, to_station: 3, duration: 5 },
            Footpath { from_station: 3, to_station: 2, duration: 6 },
        ]
    );
    assert_eq!(Footpath::from_map(rows[0].clone()), footpaths[0]);
}

#[test]
fn stations_from_records_last_one_counts() {
    let rows = vec![
        record(&[("id", "1"), ("transfer", "3"), ("name", "North")]),
        record(&[("id", "2"), ("transfer", "4"), ("name", "South")]),
        record(&[("id", "1"), ("transfer", "5"), ("name", "Old North")]),
    ];
    let stations = Station::from_maps_to_map(&rows);
    assert_eq!(stations.len(), 2);
    assert_eq!(stations[&1].id, 1);
    assert_eq!(stations[&1].transfer_time, 5);
    assert_eq!(stations[&1].name, "Old North".to_string());
    assert_eq!(stations[&2].transfer_time, 4);
    assert!(stations[&2].arrivals.is_empty() && stations[&2].departures.is_empty() && stations[&2].transfers.is_empty());
}

#[test]
fn groups_from_records() {
    let rows = vec![
        record(&[("id", "3"), ("start", "1"), ("destination", "2"), ("departure", "10"), ("arrival", "60"), ("passengers", "4"), ("in_trip", "")]),
        record(&[("id", "4"), ("start", "2"), ("destination", "1"), ("departure", "20"), ("arrival", "70"), ("passengers", "1"), ("in_trip", "9")]),
    ];
    let groups = Group::from_maps_to_vec(&rows);
    assert_eq!(groups.len(), 2);
    assert_eq!(groups[0].id, 3);
    assert_eq!(groups[0].start_station_id, 1);
    assert_eq!(groups[0].destination_station_id, 2);
    assert_eq!(groups[0].departure_time, 10);
    assert_eq!(groups[0].arrival_time, 60);
    assert_eq!(groups[0].passengers, 4);
    assert_eq!(groups[0].in_trip, None);
    assert!(groups[0].paths.is_empty());
    assert_eq!(groups[1].in_trip, Some(9));
}

#[test]
fn csv_text_read_into_records() {
    let text = b"id,transfer,name\n1,2,Central\n7,3,North\n";
    let records = read_records(text).unwrap();
    assert_eq!(records.len(), 2);
    assert_eq!(records[0], record(&[("id", "1"), ("transfer", "2"), ("name", "Central")]));
    assert_eq!(records[1], record(&[("id", "7"), ("transfer", "3"), ("name", "North")]));
    // a record with fewer fields than the header cannot be read
    assert!(read_records(b"id,transfer,name\n1,2\n").is_none());
}
