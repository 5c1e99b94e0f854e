use rlwy_net_sim::station::platform::Platform;
use rlwy_net_sim::station::{PlatformError, Station};
use rlwy_net_sim::train::TrainType;

//Tests run on the generation of platforms.
#[test]
fn num_of_plats_gen() {
    assert_eq!(Station::platform_gen(6, TrainType::Freight, &mut 0).len(), 6);
}

#[test]
fn platform_gen_numbers_from_the_counter() {
    let mut id: u8 = 3;
    let made = Station::platform_gen(2, TrainType::HighSpeed, &mut id);
    assert_eq!(id, 5);
    assert_eq!(
        made,
        vec![
            Platform { id: 3, occupied: false, platform_type: TrainType::HighSpeed },
            Platform { id: 4, occupied: false, platform_type: TrainType::HighSpeed },
        ]
    );
}

#[test]
fn platform_gen_of_none() {
    let mut id: u8 = 9;
    assert!(Station::platform_gen(0, TrainType::Freight, &mut id).is_empty());
    assert_eq!(id, 9);
}

#[test]
fn platform_new_is_free() {
    assert_eq!(
        Platform::new(7, TrainType::LowSpeed),
        Platform { id: 7, occupied: false, platform_type: TrainType::LowSpeed }
    );
}

//Tests run on the generation of stations.
//Created test station to see if values are what we expect.
#[test]
fn station_attributes() {
    let unit_station = Station::new(
        &mut 0,
        "TesterBoi".to_string(),
        vec![(3, TrainType::Freight), (1, TrainType::LowSpeed)],
    );

    assert_eq!(unit_station.name, "TesterBoi".to_string());
    assert_eq!(
        unit_station.platforms[0],
        Platform { id: 0, occupied: false, platform_type: TrainType::Freight }
    );
    assert_eq!(
        unit_station.platforms[3],
        Platform { id: 3, occupied: false, platform_type: TrainType::LowSpeed }
    );
}

#[test]
fn station_takes_the_id_before_the_increment() {
    let mut counter: u32 = 41;
    let station = Station::new(&mut counter, "Basel".to_string(), vec![]);
    assert_eq!(station.id, 41);
    assert_eq!(counter, 42);
    assert!(station.platforms.is_empty());
}

#[test]
fn station_with_one_low_speed_platform() {
    let station = Station::new(&mut 0, "Berlin".to_string(), vec![(1, TrainType::LowSpeed)]);
    assert_eq!(
        station.platforms,
        vec![Platform { id: 0, occupied: false, platform_type: TrainType::LowSpeed }]
    );
}

#[test]
fn station_skips_entries_without_platforms() {
    let station = Station::new(
        &mut 0,
        "Bern".to_string(),
        vec![(0, TrainType::Freight), (2, TrainType::HighSpeed), (0, TrainType::LowSpeed)],
    );
    assert_eq!(
        station.platforms,
        vec![
            Platform { id: 0, occupied: false, platform_type: TrainType::HighSpeed },
            Platform { id: 1, occupied: false, platform_type: TrainType::HighSpeed },
        ]
    );
}

#[test]
fn station_with_the_most_platforms() {
    let station = Station::new(
        &mut 0,
        "Hub".to_string(),
        vec![(200, TrainType::Freight), (55, TrainType::LowSpeed)],
    );
    assert_eq!(station.platforms.len(), 255);
    assert_eq!(
        station.platforms[254],
        Platform { id: 254, occupied: false, platform_type: TrainType::LowSpeed }
    );
    assert_eq!(Station::platform_total(&vec![(200, TrainType::Freight), (55, TrainType::LowSpeed)]), Some(255));
    assert_eq!(Station::platform_total(&vec![(200, TrainType::Freight), (56, TrainType::LowSpeed)]), None);
    assert_eq!(Station::platform_total(&vec![]), Some(0));
}

#[test]
fn plat_availability_test() {
    let unit_station = Station::new(
        &mut 0,
        "TesterBoi".to_string(),
        vec![(3, TrainType::HighSpeed), (2, TrainType::LowSpeed)],
    );

    assert_eq!(unit_station.available_platform(TrainType::LowSpeed).unwrap(), 3);
}

#[test]
fn occupancy() {
    let mut unit_station = Station::new(
        &mut 0,
        "TesterBoi2".to_string(),
        vec![(5, TrainType::Freight), (2, TrainType::LowSpeed)],
    );
    let _ = unit_station.enter_station(unit_station.available_platform(TrainType::LowSpeed).unwrap());

    assert_eq!(unit_station.platforms[5].occupied, true);
    assert_eq!(unit_station.platforms[4].occupied, false);
    assert_eq!(unit_station.platforms[6].occupied, false);

    let _ = unit_station.enter_station(unit_station.available_platform(TrainType::LowSpeed).unwrap());

    assert_eq!(unit_station.platforms[6].occupied, true);
    assert_eq!(unit_station.platforms[5].occupied, true);
    assert_eq!(unit_station.platforms[4].occupied, false);

    let _ = unit_station.leave_station(5);
    assert_eq!(unit_station.platforms[5].occupied, false);
    assert_eq!(unit_station.platforms[6].occupied, true);
    assert_eq!(unit_station.platforms[4].occupied, false);
}

#[test]
fn no_platform_available_when_all_of_the_class_are_occupied() {
    let mut station = Station::new(
        &mut 0,
        "Full".to_string(),
        vec![(1, TrainType::Freight), (2, TrainType::LowSpeed)],
    );
    assert_eq!(station.available_platform(TrainType::HighSpeed), None);
    assert_eq!(station.available_platform(TrainType::LowSpeed), Some(1));
    assert_eq!(station.enter_station(1), Ok(()));
    assert_eq!(station.available_platform(TrainType::LowSpeed), Some(2));
    assert_eq!(station.enter_station(2), Ok(()));
    assert_eq!(station.available_platform(TrainType::LowSpeed), None);
    assert_eq!(station.available_platform(TrainType::Freight), Some(0));
    assert_eq!(station.leave_station(1), Ok(()));
    assert_eq!(station.available_platform(TrainType::LowSpeed), Some(1));
}

#[test]
fn booking_a_missing_platform_is_an_error() {
    let mut station = Station::new(&mut 0, "Small".to_string(), vec![(2, TrainType::Freight)]);
    assert_eq!(station.enter_station(2), Err(PlatformError::PlatformNotFound));
    assert_eq!(station.leave_station(255), Err(PlatformError::PlatformNotFound));
    assert_eq!(
        station.platforms,
        vec![
            Platform { id: 0, occupied: false, platform_type: TrainType::Freight },
            Platform { id: 1, occupied: false, platform_type: TrainType::Freight },
        ]
    );
}

#[test]
fn entering_twice_keeps_the_platform_occupied() {
    let mut station = Station::new(&mut 0, "Twice".to_string(), vec![(1, TrainType::Freight)]);
    assert_eq!(station.enter_station(0), Ok(()));
    assert_eq!(station.enter_station(0), Ok(()));
    assert_eq!(
        station.platforms[0],
        Platform { id: 0, occupied: true, platform_type: TrainType::Freight }
    );
}
