use std::collections::HashMap;

use ecmp_routing::dijkstra::{add_predecessor, dijkstra};
use ecmp_routing::fan_out::{get_successors, is_listed};
use ecmp_routing::graph::Graph;
use ecmp_routing::next_hops::get_all_out_interfaces_to_destination;
use ecmp_routing::pending::{Candidate, Pending};

fn house() -> Vec<Vec<(usize, i32)>> {
    vec![
        vec![(1, 1), (2, 10)],
        vec![(0, 1), (2, 1), (3, 1), (4, 10)],
        vec![(0, 10), (1, 1), (4, 1), (5, 1)],
        vec![(1, 1), (5, 1)],
        vec![(1, 10), (2, 1)],
        vec![(2, 1), (3, 1)],
    ]
}

fn grid() -> Vec<Vec<(usize, i32)>> {
    // 3 x 3 grid, unit costs, node r * 3 + c.
    let mut g: Vec<Vec<(usize, i32)>> = vec![Vec::new(); 9];
    for r in 0..3usize {
        for c in 0..3usize {
            let n = r * 3 + c;
            if c + 1 < 3 {
                g[n].push((n + 1, 1));
                g[n + 1].push((n, 1));
            }
            if r + 1 < 3 {
                g[n].push((n + 3, 1));
                g[n + 3].push((n, 1));
            }
        }
    }
    g
}

/// Distances by repeated relaxation, independent of the library.
fn distances(graph: &Vec<Vec<(usize, i32)>>, start: usize) -> Vec<Option<i64>> {
    let mut d: Vec<Option<i64>> = vec![None; graph.len()];
    d[start] = Some(0);
    for _ in 0..graph.len() {
        for u in 0..graph.len() {
            if let Some(du) = d[u] {
                for &(v, w) in &graph[u] {
                    let c = du + w as i64;
                    if d[v].map_or(true, |dv| c < dv) {
                        d[v] = Some(c);
                    }
                }
            }
        }
    }
    d
}

fn check_exact(graph: &Vec<Vec<(usize, i32)>>, start: usize) {
    let preds = dijkstra(graph, &start).unwrap();
    let d = distances(graph, start);
    for n in 0..graph.len() {
        assert_eq!(preds.contains_key(&n), d[n].is_some());
    }
    assert_eq!(preds[&start], vec![start]);
    for (n, list) in &preds {
        if *n == start {
            continue;
        }
        for p in 0..graph.len() {
            let listed = list.iter().filter(|q| **q == p).count();
            let tight = match d[p] {
                Some(dp) => graph[p]
                    .iter()
                    .filter(|(v, w)| v == n && dp + *w as i64 == d[*n].unwrap())
                    .count(),
                None => 0,
            };
            assert_eq!(listed, tight, "start {} node {} predecessor {}", start, n, p);
        }
    }
}

#[test]
fn start_lists_itself_alone() {
    for graph in [house(), grid()] {
        for start in 0..graph.len() {
            let preds = dijkstra(&graph, &start).unwrap();
            assert_eq!(preds[&start], vec![start]);
        }
    }
}

#[test]
fn every_predecessor_is_exact_and_none_is_missing() {
    for graph in [house(), grid()] {
        for start in 0..graph.len() {
            check_exact(&graph, start);
        }
    }
}

#[test]
fn grid_corner_has_two_predecessors() {
    let preds = dijkstra(&grid(), &0).unwrap();
    let mut far = preds[&8].clone();
    far.sort();
    assert_eq!(far, vec![5, 7]);
    let mut mid = preds[&4].clone();
    mid.sort();
    assert_eq!(mid, vec![1, 3]);
    let mut hops = get_all_out_interfaces_to_destination(&preds, 0, 8);
    hops.sort();
    assert_eq!(hops, vec![1, 3]);
}

#[test]
fn rerun_gives_the_same_lists_up_to_order() {
    for graph in [house(), grid()] {
        for start in 0..graph.len() {
            let mut first = dijkstra(&graph, &start).unwrap();
            let mut second = dijkstra(&graph, &start).unwrap();
            for list in first.values_mut() {
                list.sort();
            }
            for list in second.values_mut() {
                list.sort();
            }
            assert_eq!(first, second);
        }
    }
}

#[test]
fn costs_add_up_along_the_way() {
    // 0 -> 1 costs 7 directly and 3 + 4 over 2: both arrive at 7.
    let graph: Vec<Vec<(usize, i32)>> = vec![vec![(1, 7), (2, 3)], vec![], vec![(1, 4)]];
    let preds = dijkstra(&graph, &0).unwrap();
    let mut list = preds[&1].clone();
    list.sort();
    assert_eq!(list, vec![0, 2]);
    // One unit more over 2 and only the direct edge is left.
    let graph: Vec<Vec<(usize, i32)>> = vec![vec![(1, 7), (2, 3)], vec![], vec![(1, 5)]];
    let preds = dijkstra(&graph, &0).unwrap();
    assert_eq!(preds[&1], vec![0]);
    // One unit less and only the way over 2 is left.
    let graph: Vec<Vec<(usize, i32)>> = vec![vec![(1, 7), (2, 3)], vec![], vec![(1, 3)]];
    let preds = dijkstra(&graph, &0).unwrap();
    assert_eq!(preds[&1], vec![2]);
}

#[test]
fn largest_costs_do_not_overflow() {
    let m = i32::MAX;
    let graph: Vec<Vec<(usize, i32)>> = vec![
        vec![(1, m), (4, m)],
        vec![(2, m)],
        vec![(3, m)],
        vec![],
        vec![(5, m)],
        vec![(3, m)],
    ];
    let preds = dijkstra(&graph, &0).unwrap();
    let mut last = preds[&3].clone();
    last.sort();
    assert_eq!(last, vec![2, 5]);
}

#[test]
fn edge_of_cost_zero_is_followed() {
    let graph: Vec<Vec<(usize, i32)>> = vec![vec![(1, 0)], vec![(2, 0)], vec![]];
    let preds = dijkstra(&graph, &0).unwrap();
    assert_eq!(preds[&0], vec![0]);
    assert_eq!(preds[&1], vec![0]);
    assert_eq!(preds[&2], vec![1]);
}

#[test]
fn edges_back_to_the_start_leave_its_list_alone() {
    let graph: Vec<Vec<(usize, i32)>> = vec![vec![(0, 0), (1, 1)], vec![(0, 0), (0, 1)]];
    let preds = dijkstra(&graph, &0).unwrap();
    assert_eq!(preds[&0], vec![0]);
    assert_eq!(preds[&1], vec![0]);
}

#[test]
fn absent_start_is_refused() {
    let graph: Vec<Vec<(usize, i32)>> = vec![vec![(1, 1)], vec![(0, 1)]];
    assert!(dijkstra(&graph, &2).is_none());
    let empty: Vec<Vec<(usize, i32)>> = Vec::new();
    assert!(dijkstra(&empty, &0).is_none());
}

#[test]
fn edge_to_an_absent_node_is_refused() {
    let graph: Vec<Vec<(usize, i32)>> = vec![vec![(1, 1)], vec![(7, 1)]];
    assert!(dijkstra(&graph, &0).is_none());
    assert!(dijkstra(&graph, &1).is_none());
}

#[test]
fn negative_cost_is_refused() {
    let graph: Vec<Vec<(usize, i32)>> = vec![vec![(1, 1)], vec![(0, -1)]];
    assert!(dijkstra(&graph, &0).is_none());
    // Also on an edge whose target is finalized already.
    let graph: Vec<Vec<(usize, i32)>> = vec![vec![(0, -1)]];
    assert!(dijkstra(&graph, &0).is_none());
}

#[test]
fn faults_out_of_reach_do_not_matter() {
    // Node 2 cannot be reached from 0; its edges are never looked at.
    let graph: Vec<Vec<(usize, i32)>> = vec![vec![(1, 1)], vec![], vec![(9, -5)]];
    let preds = dijkstra(&graph, &0).unwrap();
    assert_eq!(preds.len(), 2);
    assert!(dijkstra(&graph, &2).is_none());
}

#[test]
fn adjacency_list_gives_its_rows() {
    let graph: Vec<Vec<(usize, i32)>> = vec![vec![(1, 4), (1, 4), (0, 2)], vec![]];
    assert_eq!(graph.get_successors(&0), Some(vec![(1, 4), (1, 4), (0, 2)]));
    assert_eq!(graph.get_successors(&1), Some(vec![]));
    assert_eq!(graph.get_successors(&2), None);
}

#[test]
fn pending_hands_out_the_cheapest_first() {
    let mut pending = Pending::new();
    assert!(pending.is_empty());
    assert!(pending.pop().is_none());
    let costs: [u128; 9] = [5, 3, 8, 1, 9, 2, 7, 3, 0];
    for (i, c) in costs.iter().enumerate() {
        pending.push(Candidate { cost: *c, node: i, from: 100 + i });
    }
    assert!(!pending.is_empty());
    let mut out: Vec<u128> = Vec::new();
    let mut nodes: Vec<usize> = Vec::new();
    while let Some(c) = pending.pop() {
        assert_eq!(c.from, 100 + c.node);
        assert_eq!(costs[c.node], c.cost);
        out.push(c.cost);
        nodes.push(c.node);
    }
    assert_eq!(out, vec![0, 1, 2, 3, 3, 5, 7, 8, 9]);
    nodes.sort();
    assert_eq!(nodes, (0..9).collect::<Vec<usize>>());
    assert!(pending.is_empty());
    assert!(pending.pop().is_none());
}

#[test]
fn pending_interleaves_pushes_and_pops() {
    let mut pending = Pending::new();
    pending.push(Candidate { cost: 4, node: 1, from: 0 });
    pending.push(Candidate { cost: 2, node: 2, from: 0 });
    assert_eq!(pending.pop().unwrap().cost, 2);
    pending.push(Candidate { cost: 1, node: 3, from: 2 });
    pending.push(Candidate { cost: 6, node: 4, from: 2 });
    assert_eq!(pending.pop().unwrap().cost, 1);
    assert_eq!(pending.pop().unwrap().cost, 4);
    assert_eq!(pending.pop().unwrap().cost, 6);
    assert!(pending.pop().is_none());
}

#[test]
fn add_predecessor_starts_and_extends_lists() {
    let mut preds: HashMap<usize, Vec<usize>> = HashMap::new();
    add_predecessor(&mut preds, 3, 1);
    assert_eq!(preds, HashMap::from([(3, vec![1])]));
    add_predecessor(&mut preds, 3, 2);
    add_predecessor(&mut preds, 4, 3);
    add_predecessor(&mut preds, 3, 1);
    assert_eq!(preds, HashMap::from([(3, vec![1, 2, 1]), (4, vec![3])]));
}

#[test]
fn is_listed_finds_what_is_there() {
    assert!(is_listed(&vec![4, 5, 6], 6));
    assert!(is_listed(&vec![4, 5, 6], 4));
    assert!(!is_listed(&vec![4, 5, 6], 7));
    assert!(!is_listed(&Vec::new(), 0));
}

#[test]
fn tie_over_edges_of_cost_zero_lists_only_exact_predecessors() {
    let graph: Vec<Vec<(usize, i32)>> = vec![vec![(2, 0), (1, 0)], vec![(2, 0)], vec![]];
    let preds = dijkstra(&graph, &0).unwrap();
    assert_eq!(preds.len(), 3);
    assert_eq!(preds[&0], vec![0]);
    assert_eq!(preds[&1], vec![0]);
    assert_eq!(preds[&2].iter().filter(|p| **p == 0).count(), 1);
    assert!(preds[&2].iter().filter(|p| **p == 1).count() <= 1);
    assert!(preds[&2].iter().all(|p| *p == 0 || *p == 1));
    assert!(get_all_out_interfaces_to_destination(&preds, 0, 2).contains(&2));
}

#[test]
fn first_hops_are_the_neighbours_that_begin_a_shortest_walk() {
    for graph in [house(), grid()] {
        for source in 0..graph.len() {
            let preds = dijkstra(&graph, &source).unwrap();
            let from_source = distances(&graph, source);
            for destination in 0..graph.len() {
                if destination == source {
                    continue;
                }
                let mut expected: Vec<usize> = Vec::new();
                for &(hop, cost) in &graph[source] {
                    let onward = distances(&graph, hop)[destination];
                    if let Some(rest) = onward {
                        if cost as i64 + rest == from_source[destination].unwrap()
                            && !expected.contains(&hop)
                        {
                            expected.push(hop);
                        }
                    }
                }
                expected.sort();
                let mut got = get_all_out_interfaces_to_destination(&preds, source, destination);
                got.sort();
                assert_eq!(got, expected, "from {} to {}", source, destination);
            }
        }
    }
}

#[test]
fn children_are_the_nodes_that_list_the_node() {
    for graph in [house(), grid()] {
        for source in 0..graph.len() {
            let preds = dijkstra(&graph, &source).unwrap();
            for node in 0..graph.len() {
                let mut expected: Vec<usize> = preds
                    .iter()
                    .filter(|(n, list)| **n != node && list.contains(&node))
                    .map(|(n, _)| *n)
                    .collect();
                expected.sort();
                let mut got: Vec<usize> = get_successors(&preds, node).into_iter().collect();
                got.sort();
                assert_eq!(got, expected);
            }
        }
    }
}
