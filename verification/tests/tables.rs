use std::collections::HashMap;

use ecmp_routing::dijkstra::dijkstra;
use ecmp_routing::tables::{
    interface_to, least, multicast_routes, replication_at, route_to, unicast_routes, Route,
};

fn house() -> Vec<Vec<(usize, i32)>> {
    vec![
        vec![(1, 1), (2, 10)],
        vec![(0, 1), (2, 1), (3, 1), (4, 10)],
        vec![(0, 10), (1, 1), (4, 1), (5, 1)],
        vec![(1, 1), (5, 1)],
        vec![(1, 10), (2, 1)],
        vec![(2, 1), (3, 1)],
    ]
}

#[test]
fn interface_is_the_first_position() {
    let edges: Vec<(usize, i32)> = vec![(4, 1), (7, 2), (4, 3), (9, 1)];
    assert_eq!(interface_to(&edges, 4), Some(0));
    assert_eq!(interface_to(&edges, 7), Some(1));
    assert_eq!(interface_to(&edges, 9), Some(3));
    assert_eq!(interface_to(&edges, 5), None);
    assert_eq!(interface_to(&Vec::new(), 0), None);
}

#[test]
fn least_of_a_list() {
    assert_eq!(least(&vec![5, 3, 8, 3]), Some(3));
    assert_eq!(least(&vec![2]), Some(2));
    assert_eq!(least(&vec![0, usize::MAX]), Some(0));
    assert_eq!(least(&Vec::new()), None);
}

#[test]
fn unicast_table_of_the_house() {
    let routes = unicast_routes(&house(), 1).unwrap();
    assert_eq!(
        routes,
        vec![
            Route { destination: 0, hop: 0, interface: 0 },
            Route { destination: 2, hop: 2, interface: 1 },
            Route { destination: 3, hop: 3, interface: 2 },
            Route { destination: 4, hop: 2, interface: 1 },
            // 5 is reached at equal cost over 2 and over 3: the lesser is installed.
            Route { destination: 5, hop: 2, interface: 1 },
        ]
    );
    let routes = unicast_routes(&house(), 0).unwrap();
    assert_eq!(routes.len(), 5);
    for (k, route) in routes.iter().enumerate() {
        assert_eq!(route.destination, k + 1);
        assert_eq!(route.hop, 1);
        assert_eq!(route.interface, 0);
    }
}

#[test]
fn unicast_table_leaves_out_what_cannot_be_reached() {
    let graph: Vec<Vec<(usize, i32)>> = vec![vec![(2, 3)], vec![(0, 1)], vec![]];
    assert_eq!(
        unicast_routes(&graph, 0).unwrap(),
        vec![Route { destination: 2, hop: 2, interface: 0 }]
    );
    assert_eq!(unicast_routes(&graph, 2).unwrap(), Vec::<Route>::new());
}

#[test]
fn unicast_table_uses_the_first_of_parallel_edges() {
    let graph: Vec<Vec<(usize, i32)>> = vec![vec![(1, 9), (1, 2), (1, 2)], vec![]];
    assert_eq!(
        unicast_routes(&graph, 0).unwrap(),
        vec![Route { destination: 1, hop: 1, interface: 0 }]
    );
}

#[test]
fn tables_refuse_what_the_engine_refuses() {
    let graph: Vec<Vec<(usize, i32)>> = vec![vec![(1, -1)], vec![]];
    assert!(unicast_routes(&graph, 0).is_none());
    assert!(multicast_routes(&graph, 0).is_none());
    assert!(unicast_routes(&graph, 5).is_none());
    assert!(multicast_routes(&graph, 5).is_none());
    assert!(unicast_routes(&graph, 1).is_some());
}

#[test]
fn route_to_gives_no_line_where_there_is_none() {
    let graph = house();
    let preds = dijkstra(&graph, &1).unwrap();
    assert_eq!(route_to(&graph, &preds, 1, 1), None);
    assert_eq!(route_to(&graph, &preds, 1, 77), None);
    assert_eq!(route_to(&graph, &preds, 77, 1), None);
    assert_eq!(route_to(&graph, &preds, 1, 5), Some(Route { destination: 5, hop: 2, interface: 1 }));
    // A list that names a first hop to which the source has no edge.
    let odd: HashMap<usize, Vec<usize>> = HashMap::from([(1, vec![1]), (5, vec![1])]);
    assert_eq!(route_to(&graph, &odd, 1, 5), None);
}

#[test]
fn multicast_table_of_the_house() {
    // From 0: 1 is reached from 0; 2 and 3 from 1; 4 from 2; 5 from 2 and 3.
    let lines = multicast_routes(&house(), 0).unwrap();
    let got: Vec<(usize, Option<usize>, Vec<usize>)> =
        lines.iter().map(|l| (l.node, l.in_interface, l.out_interfaces.clone())).collect();
    assert_eq!(
        got,
        vec![
            (1, Some(0), vec![1, 2]),
            (2, Some(1), vec![2, 3]),
            (3, Some(0), vec![1]),
        ]
    );
}

#[test]
fn multicast_line_needs_children_and_a_predecessor() {
    let graph = house();
    let preds = dijkstra(&graph, &0).unwrap();
    assert!(replication_at(&graph, &preds, 4).is_none());
    assert!(replication_at(&graph, &preds, 5).is_none());
    assert!(replication_at(&graph, &preds, 6).is_none());
    let line = replication_at(&graph, &preds, 2).unwrap();
    assert_eq!(line.node, 2);
    assert_eq!(line.in_interface, Some(1));
    assert_eq!(line.out_interfaces, vec![2, 3]);
    // The root lists itself and receives from no neighbour.
    let line = replication_at(&graph, &preds, 0).unwrap();
    assert_eq!(line.in_interface, None);
    assert_eq!(line.out_interfaces, vec![0]);
}

#[test]
fn multicast_line_without_a_way_back() {
    // 0 -> 1 -> 2 with no edges back: 1 has no interface towards 0.
    let graph: Vec<Vec<(usize, i32)>> = vec![vec![(1, 1)], vec![(2, 1)], vec![]];
    let lines = multicast_routes(&graph, 0).unwrap();
    assert_eq!(lines.len(), 1);
    assert_eq!(lines[0].node, 1);
    assert_eq!(lines[0].in_interface, None);
    assert_eq!(lines[0].out_interfaces, vec![0]);
}

