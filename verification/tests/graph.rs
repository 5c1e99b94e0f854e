use petgraph::stable_graph::{EdgeIndex, NodeIndex};
use petgraph::visit::EdgeRef;
use rlwy_net_sim::graph::grouping::group_by_name;
use rlwy_net_sim::graph::removal::{count_pairs, cut_lines};
use rlwy_net_sim::graph::{Graph, GraphError};
use rlwy_net_sim::route::Route;
use rlwy_net_sim::station::platform::Platform;
use rlwy_net_sim::station::Station;
use rlwy_net_sim::train::TrainType;

fn names_between(graph: &Graph, a: NodeIndex, b: NodeIndex) -> Vec<String> {
    let mut names: Vec<String> =
        graph.graph.edges_connecting(a, b).map(|edge| edge.weight().name.clone()).collect();
    names.sort();
    names
}

#[test]
fn adding_station() {
    let mut test_graph = Graph::new();

    let test_graph_ind = test_graph.add_station_to_graph(
        &mut 0,
        String::from("Berlin"),
        vec![(1, TrainType::LowSpeed)],
    );
    assert_eq!(test_graph.graph.node_weight(test_graph_ind).unwrap().name, String::from("Berlin"));
    let compare_station =
        Station::new(&mut 0, String::from("Berlin"), vec![(1, TrainType::LowSpeed)]);
    assert_eq!(*test_graph.graph.node_weight(test_graph_ind).unwrap(), compare_station);
}

#[test]
fn added_station_has_exactly_the_platforms_asked_for() {
    let mut graph = Graph::new();
    let mut counter: u32 = 5;
    let node =
        graph.add_station_to_graph(&mut counter, String::from("Berlin"), vec![(1, TrainType::LowSpeed)]);
    assert_eq!(counter, 6);
    let station = graph.graph.node_weight(node).unwrap();
    assert_eq!(station.id, 5);
    assert_eq!(
        station.platforms,
        vec![Platform { id: 0, occupied: false, platform_type: TrainType::LowSpeed }]
    );
    assert_eq!(graph.station_count(), 1);
    assert_eq!(graph.segment_count(), 0);
    assert!(graph.contains_station(node));
}

#[test]
fn adding_route_as_edge() {
    let mut test_graph = Graph::new();

    let mut fake_id: u32 = 0;
    let compare_test_route = Route::new(&mut 2, String::from("NordStreamf"));
    let compare_test_route_reverse = Route::new(&mut 3, String::from("NordStreamb"));

    let test_graph_ind_a = test_graph.add_station_to_graph(
        &mut fake_id,
        String::from("Berlin"),
        vec![(1, TrainType::LowSpeed)],
    );
    let test_graph_ind_b = test_graph.add_station_to_graph(
        &mut fake_id,
        String::from("Moscow"),
        vec![(1, TrainType::LowSpeed), (1, TrainType::HighSpeed)],
    );
    test_graph.add_route_to_graph(
        test_graph_ind_a,
        test_graph_ind_b,
        &mut fake_id,
        String::from("NordStream"),
        true,
    );
    assert_eq!(
        test_graph
            .graph
            .edge_weight(test_graph.graph.find_edge(test_graph_ind_a, test_graph_ind_b).unwrap())
            .unwrap()
            .name,
        String::from("NordStreamf")
    );
    assert_eq!(
        *test_graph
            .graph
            .edge_weight(test_graph.graph.find_edge(test_graph_ind_a, test_graph_ind_b).unwrap())
            .unwrap(),
        compare_test_route
    );

    // testing that reverse direction edge was created.
    assert_eq!(
        test_graph
            .graph
            .edge_weight(test_graph.graph.find_edge(test_graph_ind_b, test_graph_ind_a).unwrap())
            .unwrap()
            .name,
        String::from("NordStreamb")
    );
    assert_eq!(
        *test_graph
            .graph
            .edge_weight(test_graph.graph.find_edge(test_graph_ind_b, test_graph_ind_a).unwrap())
            .unwrap(),
        compare_test_route_reverse
    );
}

#[test]
fn adding_uni_directional_edge() {
    let mut test_graph = Graph::new();

    let mut fake_id: u32 = 0;
    let compare_test_route = Route::new(&mut 2, String::from("NordStream2f"));

    let test_graph_ind_a = test_graph.add_station_to_graph(
        &mut fake_id,
        String::from("Berlin"),
        vec![(1, TrainType::LowSpeed)],
    );
    let test_graph_ind_b = test_graph.add_station_to_graph(
        &mut fake_id,
        String::from("Moscow"),
        vec![(1, TrainType::LowSpeed), (1, TrainType::HighSpeed)],
    );
    test_graph.add_route_to_graph(
        test_graph_ind_a,
        test_graph_ind_b,
        &mut fake_id,
        String::from("NordStream2"),
        false,
    );
    assert_eq!(
        test_graph
            .graph
            .edge_weight(test_graph.graph.find_edge(test_graph_ind_a, test_graph_ind_b).unwrap())
            .unwrap()
            .name,
        String::from("NordStream2f")
    );
    assert_eq!(
        *test_graph
            .graph
            .edge_weight(test_graph.graph.find_edge(test_graph_ind_a, test_graph_ind_b).unwrap())
            .unwrap(),
        compare_test_route
    );
}

#[test]
#[should_panic]
fn panicking_adding_uni_directional_edge() {
    let mut test_graph = Graph::new();

    let mut fake_id: u32 = 0;
    let compare_test_route = Route::new(&mut 2, String::from("NordStream2f"));
    Route::new(&mut 2, String::from("NordStream2b"));

    let test_graph_ind_a = test_graph.add_station_to_graph(
        &mut fake_id,
        String::from("Berlin"),
        vec![(1, TrainType::LowSpeed)],
    );
    let test_graph_ind_b = test_graph.add_station_to_graph(
        &mut fake_id,
        String::from("Moscow"),
        vec![(1, TrainType::LowSpeed), (1, TrainType::HighSpeed)],
    );
    test_graph.add_route_to_graph(
        test_graph_ind_a,
        test_graph_ind_b,
        &mut fake_id,
        String::from("NordStream2"),
        false,
    );
    let read_graph = &test_graph.graph;
    let forward_edge =
        read_graph.edge_weight(read_graph.find_edge(test_graph_ind_a, test_graph_ind_b).unwrap());
    assert_eq!(forward_edge.unwrap().name, String::from("NordStream2f"));
    assert_eq!(*forward_edge.unwrap(), compare_test_route);

    //check that reverse direction doesn't exist, this should cause a panic.
    let backward_edge =
        read_graph.edge_weight(read_graph.find_edge(test_graph_ind_a, test_graph_ind_b).unwrap());
    assert_eq!(backward_edge.unwrap().name, String::from("NordStream2b"));
    assert_eq!(*backward_edge.unwrap(), compare_test_route);
}

#[test]
fn route_in_both_directions_gives_two_segments_with_their_own_ids() {
    let mut graph = Graph::new();
    let mut stations: u32 = 0;
    let mut routes: u32 = 10;
    let a = graph.add_station_to_graph(&mut stations, String::from("A"), vec![]);
    let b = graph.add_station_to_graph(&mut stations, String::from("B"), vec![]);
    let (forward, backward) =
        graph.add_route_to_graph(a, b, &mut routes, String::from("NordStream"), true);
    let forward = forward.unwrap();
    let backward = backward.unwrap();
    assert_ne!(forward, backward);
    assert_eq!(routes, 12);
    assert_eq!(graph.segment_count(), 2);
    assert_eq!(graph.graph.edge_endpoints(forward), Some((a, b)));
    assert_eq!(graph.graph.edge_endpoints(backward), Some((b, a)));
    assert_eq!(
        *graph.graph.edge_weight(forward).unwrap(),
        Route { id: 10, name: String::from("NordStreamf") }
    );
    assert_eq!(
        *graph.graph.edge_weight(backward).unwrap(),
        Route { id: 11, name: String::from("NordStreamb") }
    );
}

#[test]
fn route_in_one_direction_gives_no_segment_back() {
    let mut graph = Graph::new();
    let mut stations: u32 = 0;
    let mut routes: u32 = 10;
    let a = graph.add_station_to_graph(&mut stations, String::from("A"), vec![]);
    let b = graph.add_station_to_graph(&mut stations, String::from("B"), vec![]);
    let (forward, backward) =
        graph.add_route_to_graph(a, b, &mut routes, String::from("NordStream2"), false);
    assert_eq!(backward, None);
    assert_eq!(routes, 11);
    assert_eq!(graph.segment_count(), 1);
    assert_eq!(graph.graph.edge_endpoints(forward.unwrap()), Some((a, b)));
    assert_eq!(graph.graph.find_edge(b, a), None);
    assert_eq!(names_between(&graph, a, b), vec![String::from("NordStream2f")]);
}

#[test]
fn route_from_a_station_to_itself() {
    let mut graph = Graph::new();
    let mut routes: u32 = 0;
    let a = graph.add_station_to_graph(&mut 0, String::from("Ring"), vec![]);
    let (forward, backward) = graph.add_route_to_graph(a, a, &mut routes, String::from("R"), true);
    assert_eq!(graph.graph.edge_endpoints(forward.unwrap()), Some((a, a)));
    assert_eq!(graph.graph.edge_endpoints(backward.unwrap()), Some((a, a)));
    assert_eq!(names_between(&graph, a, a), vec![String::from("Rb"), String::from("Rf")]);
}

#[test]
fn removing_a_route_from_graph() {
    let mut test_graph = Graph::new();

    let mut fake_id: u32 = 0;
    let test_station_1 = test_graph.add_station_to_graph(
        &mut fake_id,
        String::from("Warsaw"),
        vec![(1, TrainType::Freight), (2, TrainType::LowSpeed)],
    );

    let test_station_2 = test_graph.add_station_to_graph(
        &mut fake_id,
        String::from("Madrid"),
        vec![(1, TrainType::HighSpeed), (2, TrainType::LowSpeed)],
    );
    let test_station_3 = test_graph.add_station_to_graph(
        &mut fake_id,
        String::from("Paris"),
        vec![(1, TrainType::Freight), (2, TrainType::HighSpeed)],
    );

    test_graph.add_route_to_graph(
        test_station_1,
        test_station_3,
        &mut fake_id,
        String::from("waris"),
        true,
    );
    test_graph.add_route_to_graph(
        test_station_3,
        test_station_2,
        &mut fake_id,
        String::from("waris"),
        true,
    );

    assert_eq!(true, test_graph.graph.contains_node(test_station_3));

    let removal = test_graph.remove_station_from_graph(test_station_3, &mut fake_id);
    // add the assertequal, to test wether removal worked.

    assert_eq!(Ok(()), removal);
    assert_eq!(test_graph.graph.edges_connecting(test_station_1, test_station_2).count(), 2);
    assert_eq!(false, test_graph.graph.contains_node(test_station_3));
}

#[test]
fn test_major_station_removal() {
    let mut test_graph = Graph::new();

    let mut fake_id: u32 = 0;
    let test_station_1 = test_graph.add_station_to_graph(
        &mut fake_id,
        String::from("Warsaw"),
        vec![(1, TrainType::Freight), (2, TrainType::LowSpeed)],
    );
    let test_station_2 = test_graph.add_station_to_graph(
        &mut fake_id,
        String::from("Madrid"),
        vec![(1, TrainType::HighSpeed), (2, TrainType::LowSpeed)],
    );
    let test_station_3 = test_graph.add_station_to_graph(
        &mut fake_id,
        String::from("Paris"),
        vec![(1, TrainType::Freight), (3, TrainType::HighSpeed)],
    );
    let test_station_4 = test_graph.add_station_to_graph(
        &mut fake_id,
        String::from("London"),
        vec![(2, TrainType::Freight), (4, TrainType::HighSpeed)],
    );
    let test_station_5 = test_graph.add_station_to_graph(
        &mut fake_id,
        String::from("Milan"),
        vec![(7, TrainType::Freight), (5, TrainType::HighSpeed)],
    );
    let test_station_6 = test_graph.add_station_to_graph(
        &mut fake_id,
        String::from("Pontsarn"),
        vec![(3, TrainType::LowSpeed), (2, TrainType::HighSpeed)],
    );

    test_graph.add_route_to_graph(
        test_station_1,
        test_station_3,
        &mut fake_id,
        String::from("waris"),
        false,
    );
    test_graph.add_route_to_graph(
        test_station_3,
        test_station_2,
        &mut fake_id,
        String::from("waris"),
        false,
    );
    test_graph.add_route_to_graph(
        test_station_4,
        test_station_3,
        &mut fake_id,
        String::from("Loilan"),
        false,
    );
    test_graph.add_route_to_graph(
        test_station_3,
        test_station_5,
        &mut fake_id,
        String::from("Loilan"),
        false,
    );
    test_graph.add_route_to_graph(
        test_station_3,
        test_station_6,
        &mut fake_id,
        String::from("Parn"),
        false,
    );

    assert_eq!(true, test_graph.graph.contains_node(test_station_3));

    let removal = test_graph.remove_station_from_graph(test_station_3, &mut fake_id);
    assert_eq!(Ok(()), removal);
    assert_eq!(test_graph.graph.edges_connecting(test_station_1, test_station_2).count(), 1);
    assert_eq!(test_graph.graph.edges_connecting(test_station_4, test_station_5).count(), 1);
    assert_eq!(test_graph.graph.edges(test_station_6).count(), 0);
    assert_eq!(false, test_graph.graph.contains_node(test_station_3));
}

#[test]
fn removal_of_a_through_station_joins_its_neighbours() {
    let mut graph = Graph::new();
    let mut stations: u32 = 0;
    let mut routes: u32 = 0;
    let a = graph.add_station_to_graph(&mut stations, String::from("A"), vec![]);
    let b = graph.add_station_to_graph(&mut stations, String::from("B"), vec![]);
    let mid = graph.add_station_to_graph(&mut stations, String::from("Mid"), vec![]);
    let (first, _) = graph.add_route_to_graph(a, mid, &mut routes, String::from("S1"), false);
    let (second, _) = graph.add_route_to_graph(mid, b, &mut routes, String::from("S1"), false);
    assert_eq!(routes, 2);

    assert_eq!(graph.remove_station_from_graph(mid, &mut routes), Ok(()));

    assert_eq!(routes, 4);
    assert_eq!(graph.station_count(), 2);
    assert_eq!(graph.segment_count(), 2);
    assert!(!graph.contains_station(mid));
    assert_eq!(graph.graph.edge_weight(first.unwrap()), None);
    assert_eq!(graph.graph.edge_endpoints(second.unwrap()), None);
    let forward = graph.graph.find_edge(a, b).unwrap();
    let backward = graph.graph.find_edge(b, a).unwrap();
    assert_eq!(
        *graph.graph.edge_weight(forward).unwrap(),
        Route { id: 2, name: String::from("S1ff") }
    );
    assert_eq!(
        *graph.graph.edge_weight(backward).unwrap(),
        Route { id: 3, name: String::from("S1fb") }
    );
}

#[test]
fn removal_of_a_hub_cuts_the_line_that_ends_there() {
    let mut graph = Graph::new();
    let mut stations: u32 = 0;
    let mut routes: u32 = 0;
    let a = graph.add_station_to_graph(&mut stations, String::from("A"), vec![]);
    let b = graph.add_station_to_graph(&mut stations, String::from("B"), vec![]);
    let c = graph.add_station_to_graph(&mut stations, String::from("C"), vec![]);
    let d = graph.add_station_to_graph(&mut stations, String::from("D"), vec![]);
    let hub = graph.add_station_to_graph(&mut stations, String::from("Hub"), vec![]);
    graph.add_route_to_graph(a, hub, &mut routes, String::from("through"), false);
    graph.add_route_to_graph(hub, b, &mut routes, String::from("through"), false);
    graph.add_route_to_graph(hub, c, &mut routes, String::from("end"), false);
    let (apart, _) = graph.add_route_to_graph(c, d, &mut routes, String::from("apart"), false);
    assert_eq!(routes, 4);

    assert_eq!(graph.remove_station_from_graph(hub, &mut routes), Ok(()));

    assert_eq!(routes, 6);
    assert_eq!(names_between(&graph, a, b), vec![String::from("throughff")]);
    assert_eq!(names_between(&graph, b, a), vec![String::from("throughfb")]);
    assert_eq!(graph.graph.edges(c).count(), 1);
    assert_eq!(graph.graph.edge_endpoints(apart.unwrap()), Some((c, d)));
    assert_eq!(
        *graph.graph.edge_weight(apart.unwrap()).unwrap(),
        Route { id: 3, name: String::from("apart") + "f" }
    );
    assert_eq!(graph.segment_count(), 3);
    assert_eq!(graph.station_count(), 4);
}

#[test]
fn removal_leaves_a_junction_of_three_cut() {
    let mut graph = Graph::new();
    let mut stations: u32 = 0;
    let mut routes: u32 = 0;
    let a = graph.add_station_to_graph(&mut stations, String::from("A"), vec![]);
    let b = graph.add_station_to_graph(&mut stations, String::from("B"), vec![]);
    let c = graph.add_station_to_graph(&mut stations, String::from("C"), vec![]);
    let hub = graph.add_station_to_graph(&mut stations, String::from("Hub"), vec![]);
    graph.add_route_to_graph(a, hub, &mut routes, String::from("Y"), false);
    graph.add_route_to_graph(hub, b, &mut routes, String::from("Y"), false);
    graph.add_route_to_graph(hub, c, &mut routes, String::from("Y"), false);

    let groups = graph.routes_grouped_at(hub);
    assert_eq!(groups.len(), 1);
    assert_eq!(groups[0].0, String::from("Yf"));
    assert_eq!(groups[0].1.len(), 3);
    assert_eq!(count_pairs(&groups), 0);
    assert_eq!(cut_lines(&groups), vec![String::from("Yf")]);

    assert_eq!(graph.remove_station_from_graph(hub, &mut routes), Ok(()));
    assert_eq!(routes, 3);
    assert_eq!(graph.segment_count(), 0);
    assert_eq!(graph.station_count(), 3);
}

#[test]
fn removal_of_a_station_that_is_not_there() {
    let mut graph = Graph::new();
    let mut stations: u32 = 0;
    let mut routes: u32 = 0;
    let a = graph.add_station_to_graph(&mut stations, String::from("A"), vec![]);
    let b = graph.add_station_to_graph(&mut stations, String::from("B"), vec![]);
    graph.add_route_to_graph(a, b, &mut routes, String::from("S1"), true);
    assert_eq!(graph.remove_station_from_graph(a, &mut routes), Ok(()));
    assert_eq!(graph.segment_count(), 0);

    assert_eq!(graph.remove_station_from_graph(a, &mut routes), Err(GraphError::RemovingStation));
    assert_eq!(
        graph.remove_station_from_graph(NodeIndex::new(17), &mut routes),
        Err(GraphError::RemovingStation)
    );
    assert_eq!(routes, 2);
    assert_eq!(graph.station_count(), 1);
    assert!(graph.contains_station(b));
    assert!(!graph.contains_station(a));
}

#[test]
fn handles_of_the_other_stations_stay_valid() {
    let mut graph = Graph::new();
    let mut stations: u32 = 0;
    let mut routes: u32 = 0;
    let a = graph.add_station_to_graph(&mut stations, String::from("A"), vec![]);
    let b = graph.add_station_to_graph(&mut stations, String::from("B"), vec![]);
    let c = graph.add_station_to_graph(&mut stations, String::from("C"), vec![]);
    let (kept, _) = graph.add_route_to_graph(b, c, &mut routes, String::from("S2"), false);
    assert_eq!(graph.remove_station_from_graph(a, &mut routes), Ok(()));
    assert_eq!(graph.graph.node_weight(b).unwrap().name, String::from("B"));
    assert_eq!(graph.graph.node_weight(c).unwrap().name, String::from("C"));
    assert_eq!(graph.graph.edge_endpoints(kept.unwrap()), Some((b, c)));
    let again = graph.add_station_to_graph(&mut stations, String::from("D"), vec![]);
    assert_eq!(graph.graph.node_weight(again).unwrap().id, 3);
    assert_eq!(graph.station_count(), 3);
}

#[test]
fn try_remove_station_without_room_changes_nothing() {
    let mut graph = Graph::new();
    let mut stations: u32 = 0;
    let mut routes: u32 = 0;
    let a = graph.add_station_to_graph(&mut stations, String::from("A"), vec![]);
    let b = graph.add_station_to_graph(&mut stations, String::from("B"), vec![]);
    let mid = graph.add_station_to_graph(&mut stations, String::from("Mid"), vec![]);
    graph.add_route_to_graph(a, mid, &mut routes, String::from("S1"), false);
    graph.add_route_to_graph(mid, b, &mut routes, String::from("S1"), false);

    let mut spent: u32 = u32::MAX - 1;
    assert_eq!(graph.try_remove_station(mid, &mut spent), None);
    assert_eq!(spent, u32::MAX - 1);
    assert_eq!(graph.station_count(), 3);
    assert_eq!(graph.segment_count(), 2);

    let mut enough: u32 = u32::MAX - 2;
    assert_eq!(graph.try_remove_station(mid, &mut enough), Some(Ok(())));
    assert_eq!(enough, u32::MAX);
    assert_eq!(names_between(&graph, a, b), vec![String::from("S1ff")]);

    assert_eq!(
        graph.try_remove_station(mid, &mut enough),
        Some(Err(GraphError::RemovingStation))
    );
}

#[test]
fn routes_at_lists_arrivals_before_departures() {
    let mut graph = Graph::new();
    let mut stations: u32 = 0;
    let mut routes: u32 = 0;
    let a = graph.add_station_to_graph(&mut stations, String::from("A"), vec![]);
    let mid = graph.add_station_to_graph(&mut stations, String::from("Mid"), vec![]);
    let b = graph.add_station_to_graph(&mut stations, String::from("B"), vec![]);
    let (out, _) = graph.add_route_to_graph(mid, b, &mut routes, String::from("S1"), false);
    let (into, _) = graph.add_route_to_graph(a, mid, &mut routes, String::from("S1"), false);
    graph.add_route_to_graph(a, b, &mut routes, String::from("S9"), true);
    assert_eq!(
        graph.routes_at(mid),
        vec![(String::from("S1f"), into.unwrap()), (String::from("S1f"), out.unwrap())]
    );
    assert_eq!(graph.routes_at(NodeIndex::new(40)), vec![]);
    assert_eq!(
        graph.routes_grouped_at(mid),
        vec![(String::from("S1f"), vec![into.unwrap(), out.unwrap()])]
    );
}

#[test]
fn rejoin_groups_follows_the_first_segment_of_each_pair() {
    let mut graph = Graph::new();
    let mut stations: u32 = 0;
    let mut routes: u32 = 0;
    let a = graph.add_station_to_graph(&mut stations, String::from("A"), vec![]);
    let b = graph.add_station_to_graph(&mut stations, String::from("B"), vec![]);
    let mid = graph.add_station_to_graph(&mut stations, String::from("Mid"), vec![]);
    let into = graph.add_route_to_graph(a, mid, &mut routes, String::from("S1"), false).0.unwrap();
    let out = graph.add_route_to_graph(mid, b, &mut routes, String::from("S1"), false).0.unwrap();

    // the first segment leaves the station: from the start of the second to
    // the end of the first
    let groups = vec![
        (String::from("X"), vec![out, into]),
        (String::from("Y"), vec![into]),
        (String::from("Z"), vec![into, out]),
    ];
    let added = graph.rejoin_groups(mid, &groups, &mut routes);
    assert_eq!(added.len(), 2);
    assert_eq!(routes, 6);
    assert_eq!(graph.graph.edge_endpoints(added[0].0), Some((a, b)));
    assert_eq!(graph.graph.edge_endpoints(added[0].1), Some((b, a)));
    assert_eq!(*graph.graph.edge_weight(added[0].0).unwrap(), Route { id: 2, name: String::from("Xf") });
    assert_eq!(*graph.graph.edge_weight(added[0].1).unwrap(), Route { id: 3, name: String::from("Xb") });
    assert_eq!(graph.graph.edge_endpoints(added[1].0), Some((a, b)));
    assert_eq!(*graph.graph.edge_weight(added[1].0).unwrap(), Route { id: 4, name: String::from("Zf") });
    assert_eq!(*graph.graph.edge_weight(added[1].1).unwrap(), Route { id: 5, name: String::from("Zb") });
    assert_eq!(graph.segment_count(), 6);
    assert_eq!(graph.station_count(), 3);
}

#[test]
fn rejoin_of_two_departures_starts_at_the_station_itself() {
    let mut graph = Graph::new();
    let mut stations: u32 = 0;
    let mut routes: u32 = 0;
    let a = graph.add_station_to_graph(&mut stations, String::from("A"), vec![]);
    let b = graph.add_station_to_graph(&mut stations, String::from("B"), vec![]);
    let fork = graph.add_station_to_graph(&mut stations, String::from("Fork"), vec![]);
    graph.add_route_to_graph(fork, a, &mut routes, String::from("V"), false);
    graph.add_route_to_graph(fork, b, &mut routes, String::from("V"), false);
    // the departures come out newest first: fork to b, then fork to a; the
    // replacement runs from the fork to b and is removed with the fork
    assert_eq!(graph.remove_station_from_graph(fork, &mut routes), Ok(()));
    assert_eq!(routes, 4);
    assert_eq!(graph.segment_count(), 0);
    assert_eq!(graph.station_count(), 2);
}

#[test]
fn group_by_name_keeps_the_order_of_first_occurrence() {
    let e = |index: usize| EdgeIndex::<u32>::new(index);
    let named = vec![
        (String::from("S2b"), e(4)),
        (String::from("S1f"), e(0)),
        (String::from("S2b"), e(1)),
        (String::from("S3f"), e(9)),
        (String::from("S1f"), e(2)),
        (String::from("S2b"), e(4)),
    ];
    let groups = group_by_name(named);
    assert_eq!(
        groups,
        vec![
            (String::from("S2b"), vec![e(4), e(1), e(4)]),
            (String::from("S1f"), vec![e(0), e(2)]),
            (String::from("S3f"), vec![e(9)]),
        ]
    );
    assert_eq!(count_pairs(&groups), 1);
    assert_eq!(cut_lines(&groups), vec![String::from("S2b"), String::from("S3f")]);
    assert_eq!(cut_lines(&vec![]), Vec::<String>::new());
    assert_eq!(group_by_name(vec![]), vec![]);
    assert_eq!(count_pairs(&vec![]), 0);
}

#[test]
fn new_network_is_empty() {
    let graph = Graph::new();
    assert_eq!(graph.station_count(), 0);
    assert_eq!(graph.segment_count(), 0);
    assert!(!graph.contains_station(NodeIndex::new(0)));
    assert_eq!(graph.station(NodeIndex::new(0)), None);
    assert_eq!(graph.route(EdgeIndex::new(0)), None);
    assert_eq!(graph.endpoints(EdgeIndex::new(0)), None);
    assert_eq!(graph.routes_grouped_at(NodeIndex::new(0)), vec![]);
}

#[test]
fn network_answers_for_its_stations_and_segments() {
    let mut graph = Graph::new();
    let mut stations: u32 = 0;
    let mut routes: u32 = 0;
    let a = graph.add_station_to_graph(&mut stations, String::from("A"), vec![(1, TrainType::Freight)]);
    let b = graph.add_station_to_graph(&mut stations, String::from("B"), vec![]);
    let (forward, backward) = graph.add_route_to_graph(a, b, &mut routes, String::from("S1"), true);
    assert_eq!(
        graph.station(a),
        Some(&Station::new(&mut 0, String::from("A"), vec![(1, TrainType::Freight)]))
    );
    assert_eq!(graph.station(b).map(|station| station.id), Some(1));
    assert_eq!(graph.route(forward.unwrap()), Some(&Route { id: 0, name: String::from("S1f") }));
    assert_eq!(graph.route(backward.unwrap()), Some(&Route { id: 1, name: String::from("S1b") }));
    assert_eq!(graph.endpoints(forward.unwrap()), Some((a, b)));
    assert_eq!(graph.endpoints(backward.unwrap()), Some((b, a)));
    assert_eq!(graph.endpoints(EdgeIndex::new(2)), None);
}

#[test]
fn routes_at_lists_a_segment_to_the_same_station_on_both_sides() {
    let mut graph = Graph::new();
    let mut routes: u32 = 0;
    let a = graph.add_station_to_graph(&mut 0, String::from("Ring"), vec![]);
    let b = graph.add_station_to_graph(&mut 1, String::from("Spur"), vec![]);
    let round = graph.add_route_to_graph(a, a, &mut routes, String::from("R"), false).0.unwrap();
    let out = graph.add_route_to_graph(a, b, &mut routes, String::from("S"), false).0.unwrap();
    assert_eq!(
        graph.routes_at(a),
        vec![
            (String::from("Rf"), round),
            (String::from("Sf"), out),
            (String::from("Rf"), round)
        ]
    );
    assert_eq!(
        graph.routes_grouped_at(a),
        vec![(String::from("Rf"), vec![round, round]), (String::from("Sf"), vec![out])]
    );
}

#[test]
fn newest_segment_is_listed_first() {
    let mut graph = Graph::new();
    let mut stations: u32 = 0;
    let mut routes: u32 = 0;
    let a = graph.add_station_to_graph(&mut stations, String::from("A"), vec![]);
    let b = graph.add_station_to_graph(&mut stations, String::from("B"), vec![]);
    let first = graph.add_route_to_graph(a, b, &mut routes, String::from("S1"), true);
    let second = graph.add_route_to_graph(a, b, &mut routes, String::from("S2"), true);
    graph.add_station_to_graph(&mut stations, String::from("C"), vec![]);
    assert_eq!(
        graph.routes_at(a),
        vec![
            (String::from("S2b"), second.1.unwrap()),
            (String::from("S1b"), first.1.unwrap()),
            (String::from("S2f"), second.0.unwrap()),
            (String::from("S1f"), first.0.unwrap()),
        ]
    );
}

#[test]
fn platforms_are_booked_through_the_network() {
    let mut graph = Graph::new();
    let mut stations: u32 = 0;
    let mut routes: u32 = 0;
    let a = graph.add_station_to_graph(&mut stations, String::from("A"), vec![(2, TrainType::Freight)]);
    let b = graph.add_station_to_graph(&mut stations, String::from("B"), vec![]);
    let (kept, _) = graph.add_route_to_graph(a, b, &mut routes, String::from("S1"), false);
    assert_eq!(graph.station_mut(a).map(|station| station.enter_station(1)), Some(Ok(())));
    assert_eq!(graph.station(a).unwrap().available_platform(TrainType::Freight), Some(0));
    assert_eq!(graph.station_mut(a).map(|station| station.enter_station(0)), Some(Ok(())));
    assert_eq!(graph.station(a).unwrap().available_platform(TrainType::Freight), None);
    assert_eq!(graph.station_mut(a).map(|station| station.leave_station(1)), Some(Ok(())));
    assert_eq!(graph.station(a).unwrap().available_platform(TrainType::Freight), Some(1));
    assert!(graph.station_mut(NodeIndex::new(9)).is_none());
    assert_eq!(graph.station(b).unwrap().platforms, vec![]);
    assert_eq!(graph.endpoints(kept.unwrap()), Some((a, b)));
    assert_eq!(graph.station_count(), 2);
}

#[test]
fn removal_keeps_the_order_of_the_segments_that_stay() {
    let mut graph = Graph::new();
    let mut stations: u32 = 0;
    let mut routes: u32 = 0;
    let a = graph.add_station_to_graph(&mut stations, String::from("A"), vec![]);
    let b = graph.add_station_to_graph(&mut stations, String::from("B"), vec![]);
    let m = graph.add_station_to_graph(&mut stations, String::from("M"), vec![]);
    let x = graph.add_station_to_graph(&mut stations, String::from("X"), vec![]);
    let old = graph.add_route_to_graph(a, x, &mut routes, String::from("S7"), false).0.unwrap();
    graph.add_route_to_graph(a, m, &mut routes, String::from("S1"), false);
    graph.add_route_to_graph(m, b, &mut routes, String::from("S1"), false);
    let new = graph.add_route_to_graph(a, x, &mut routes, String::from("S8"), false).0.unwrap();

    assert_eq!(graph.remove_station_from_graph(m, &mut routes), Ok(()));

    let forward = graph.graph.find_edge(a, b).unwrap();
    let backward = graph.graph.find_edge(b, a).unwrap();
    assert_eq!(
        graph.routes_at(a),
        vec![
            (String::from("S1fb"), backward),
            (String::from("S1ff"), forward),
            (String::from("S8f"), new),
            (String::from("S7f"), old),
        ]
    );
    assert_eq!(
        graph.routes_at(b),
        vec![(String::from("S1ff"), forward), (String::from("S1fb"), backward)]
    );
    assert_eq!(graph.routes_at(m), vec![]);
}
