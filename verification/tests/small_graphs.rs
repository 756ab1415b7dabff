use std::collections::{HashMap, HashSet};

use ecmp_routing::dijkstra::dijkstra;
use ecmp_routing::fan_out::get_successors;
use ecmp_routing::next_hops::get_all_out_interfaces_to_destination;

fn sorted(mut v: Vec<usize>) -> Vec<usize> {
    v.sort();
    v
}

fn as_set(v: &[usize]) -> HashSet<usize> {
    v.iter().copied().collect()
}

fn line() -> Vec<Vec<(usize, i32)>> {
    vec![vec![(1, 1)], vec![(0, 1), (2, 1)], vec![(1, 1)]]
}

fn diamond() -> Vec<Vec<(usize, i32)>> {
    vec![vec![(1, 1), (2, 1)], vec![(3, 1)], vec![(3, 1)], vec![]]
}

#[test]
fn line_graph_predecessors_and_first_hop() {
    let preds = dijkstra(&line(), &0).unwrap();
    let expected: HashMap<usize, Vec<usize>> =
        HashMap::from([(0, vec![0]), (1, vec![0]), (2, vec![1])]);
    assert_eq!(preds, expected);
    assert_eq!(get_all_out_interfaces_to_destination(&preds, 0, 2), vec![1]);
    assert_eq!(get_all_out_interfaces_to_destination(&preds, 0, 1), vec![1]);
}

#[test]
fn parallel_paths_give_two_predecessors_and_two_first_hops() {
    let preds = dijkstra(&diamond(), &0).unwrap();
    assert_eq!(preds.len(), 4);
    assert_eq!(preds[&0], vec![0]);
    assert_eq!(preds[&1], vec![0]);
    assert_eq!(preds[&2], vec![0]);
    assert_eq!(sorted(preds[&3].clone()), vec![1, 2]);
    let hops = get_all_out_interfaces_to_destination(&preds, 0, 3);
    assert_eq!(sorted(hops), vec![1, 2]);
}

#[test]
fn disconnected_node_has_no_entry_and_no_first_hop() {
    let graph: Vec<Vec<(usize, i32)>> =
        vec![vec![(1, 1)], vec![(0, 1)], vec![], vec![], vec![], vec![]];
    let preds = dijkstra(&graph, &0).unwrap();
    assert!(!preds.contains_key(&5));
    assert_eq!(preds.len(), 2);
    assert_eq!(get_all_out_interfaces_to_destination(&preds, 0, 5), Vec::<usize>::new());
}

#[test]
fn fan_out_branches_at_the_root() {
    let preds = dijkstra(&diamond(), &0).unwrap();
    assert_eq!(get_successors(&preds, 0), as_set(&[1, 2]));
    assert_eq!(get_successors(&preds, 1), as_set(&[3]));
    assert_eq!(get_successors(&preds, 2), as_set(&[3]));
    assert_eq!(get_successors(&preds, 3), as_set(&[]));
}

#[test]
fn fan_out_of_a_node_without_entry_is_empty() {
    let preds = dijkstra(&diamond(), &0).unwrap();
    assert_eq!(get_successors(&preds, 17), as_set(&[]));
}

#[test]
fn route_to_self_is_the_node_alone() {
    let preds = dijkstra(&diamond(), &0).unwrap();
    for s in 0..6 {
        assert_eq!(get_all_out_interfaces_to_destination(&preds, s, s), vec![s]);
    }
    let empty: HashMap<usize, Vec<usize>> = HashMap::new();
    assert_eq!(get_all_out_interfaces_to_destination(&empty, 9, 9), vec![9]);
}

#[test]
fn single_path_has_exactly_one_first_hop() {
    let graph: Vec<Vec<(usize, i32)>> =
        vec![vec![(1, 4)], vec![(2, 5)], vec![(3, 6)], vec![(4, 7)], vec![]];
    let preds = dijkstra(&graph, &0).unwrap();
    for d in 1..5 {
        assert_eq!(get_all_out_interfaces_to_destination(&preds, 0, d), vec![1]);
    }
}

#[test]
fn first_hops_of_unknown_destination_are_empty() {
    let preds = dijkstra(&line(), &0).unwrap();
    assert!(get_all_out_interfaces_to_destination(&preds, 0, 99).is_empty());
    assert!(get_all_out_interfaces_to_destination(&preds, 99, 2).is_empty());
}

#[test]
fn first_hops_list_each_neighbour_once() {
    // Two equal edges from 0 to 1 put 0 twice into the list of 1.
    let graph: Vec<Vec<(usize, i32)>> = vec![vec![(1, 1), (1, 1)], vec![(2, 1)], vec![]];
    let preds = dijkstra(&graph, &0).unwrap();
    assert_eq!(preds[&1], vec![0, 0]);
    assert_eq!(get_all_out_interfaces_to_destination(&preds, 0, 2), vec![1]);
    assert_eq!(get_all_out_interfaces_to_destination(&preds, 0, 1), vec![1]);
}

#[test]
fn first_hops_in_the_house() {
    let mut house: Vec<Vec<(usize, i32)>> = Vec::with_capacity(6);
    house.push(vec![(1, 1), (2, 10)]);
    house.push(vec![(0, 1), (2, 1), (3, 1), (4, 10)]);
    house.push(vec![(0, 10), (1, 1), (4, 1), (5, 1)]);
    house.push(vec![(1, 1), (5, 1)]);
    house.push(vec![(1, 10), (2, 1)]);
    house.push(vec![(2, 1), (3, 1)]);
    let preds = dijkstra(&house, &1).unwrap();
    assert_eq!(sorted(get_all_out_interfaces_to_destination(&preds, 1, 5)), vec![2, 3]);
    assert_eq!(get_all_out_interfaces_to_destination(&preds, 1, 4), vec![2]);
    assert_eq!(get_all_out_interfaces_to_destination(&preds, 1, 0), vec![0]);
    let preds = dijkstra(&house, &0).unwrap();
    assert_eq!(get_all_out_interfaces_to_destination(&preds, 0, 5), vec![1]);
    assert_eq!(get_successors(&preds, 1), as_set(&[2, 3]));
    assert_eq!(get_successors(&preds, 2), as_set(&[4, 5]));
    assert_eq!(get_successors(&preds, 3), as_set(&[5]));
    assert_eq!(get_successors(&preds, 0), as_set(&[1]));
}

#[test]
fn first_hops_do_not_walk_through_the_source() {
    // A hand-made multimap in which 2 lists the source and the source lists 3.
    let preds: HashMap<usize, Vec<usize>> =
        HashMap::from([(0, vec![3]), (1, vec![0, 2]), (2, vec![0]), (3, vec![3])]);
    assert_eq!(sorted(get_all_out_interfaces_to_destination(&preds, 0, 1)), vec![1, 2]);
    assert!(get_all_out_interfaces_to_destination(&preds, 0, 3).is_empty());
}

#[test]
fn first_hops_end_on_a_cycle_of_lists() {
    let preds: HashMap<usize, Vec<usize>> =
        HashMap::from([(1, vec![2]), (2, vec![3]), (3, vec![1, 7])]);
    assert!(get_all_out_interfaces_to_destination(&preds, 0, 1).is_empty());
    assert_eq!(get_all_out_interfaces_to_destination(&preds, 7, 1), vec![3]);
}
