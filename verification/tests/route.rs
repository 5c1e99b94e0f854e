use rlwy_net_sim::edge::Edger;
use rlwy_net_sim::route::Route;

#[test]
fn adding_route() {
    let test_route = Route::new(&mut 0, String::from("Geneva"));
    assert_eq!((test_route.id, test_route.name), (0, String::from("Geneva")));
}

#[test]
fn route_adding_route() {
    let test_route = rlwy_net_sim::line::route::Route::new(&mut 0, String::from("Geneva"), 2, 3);
    assert_eq!(
        (test_route.id, test_route.name, test_route.start_station, test_route.end_station),
        (1, String::from("Geneva"), 2, 3)
    );
}

#[test]
fn route_advances_the_counter() {
    let mut counter: u32 = 7;
    let first = Route::new(&mut counter, String::from("S1f"));
    let second = Route::new(&mut counter, String::from("S1b"));
    assert_eq!((first.id, second.id, counter), (7, 8, 9));
}

#[test]
fn line_route_advances_the_counter_first() {
    let mut counter: u32 = 7;
    let segment = rlwy_net_sim::line::route::Route::new(&mut counter, String::from("S1"), 4, 5);
    assert_eq!((segment.id, counter), (8, 8));
}

#[test]
fn edger_advances_the_counter() {
    let mut counter: u32 = 3;
    let first = Edger::new(&mut counter, String::from("Gotthard"), 1, 2);
    let again = Edger::new(&mut 3, String::from("Gotthard"), 1, 2);
    let other = Edger::new(&mut counter, String::from("Gotthard"), 1, 2);
    assert_eq!(counter, 5);
    assert_eq!(first, again);
    assert_ne!(first, other);
}
