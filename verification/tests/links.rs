use ecmp_routing::links::{allocate_links, link_between, links_at, Link, LinkEnd};

fn triangle() -> Vec<Vec<(usize, i32)>> {
    vec![vec![(1, 1), (2, 2)], vec![(0, 1), (2, 1)], vec![(1, 1), (0, 2)]]
}

#[test]
fn each_pair_of_neighbours_is_one_link() {
    assert_eq!(
        allocate_links(&triangle()),
        vec![
            Link { first: 0, second: 1 },
            Link { first: 0, second: 2 },
            Link { first: 1, second: 2 },
        ]
    );
    assert_eq!(allocate_links(&Vec::new()), Vec::<Link>::new());
    assert_eq!(allocate_links(&vec![vec![], vec![]]), Vec::<Link>::new());
}

#[test]
fn link_is_named_after_the_edge_met_first() {
    // Only 2 lists 0; 1 lists 1 itself; the edge from 0 to 1 is there twice.
    let graph: Vec<Vec<(usize, i32)>> =
        vec![vec![(1, 1), (1, 5)], vec![(1, 0), (0, 1)], vec![(0, 3)]];
    assert_eq!(
        allocate_links(&graph),
        vec![
            Link { first: 0, second: 1 },
            Link { first: 1, second: 1 },
            Link { first: 2, second: 0 },
        ]
    );
}

#[test]
fn link_between_two_nodes_is_found_from_either_end() {
    let links = allocate_links(&triangle());
    assert_eq!(link_between(&links, 0, 1), Some((0, true)));
    assert_eq!(link_between(&links, 1, 0), Some((0, false)));
    assert_eq!(link_between(&links, 2, 1), Some((2, false)));
    assert_eq!(link_between(&links, 1, 2), Some((2, true)));
    assert_eq!(link_between(&links, 0, 0), None);
    assert_eq!(link_between(&links, 0, 3), None);
    let looped = vec![Link { first: 4, second: 4 }];
    assert_eq!(link_between(&looped, 4, 4), Some((0, true)));
}

#[test]
fn links_at_a_node_are_listed_in_order() {
    let links = allocate_links(&triangle());
    assert_eq!(
        links_at(&links, 2),
        vec![
            LinkEnd { link: 1, peer: 0, forward: false },
            LinkEnd { link: 2, peer: 1, forward: false },
        ]
    );
    assert_eq!(
        links_at(&links, 0),
        vec![
            LinkEnd { link: 0, peer: 1, forward: true },
            LinkEnd { link: 1, peer: 2, forward: true },
        ]
    );
    assert_eq!(links_at(&links, 7), Vec::<LinkEnd>::new());
    let looped = vec![Link { first: 4, second: 4 }];
    assert_eq!(links_at(&looped, 4), vec![LinkEnd { link: 0, peer: 4, forward: true }]);
}
