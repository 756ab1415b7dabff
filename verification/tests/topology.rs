use ecmp_routing::dijkstra::dijkstra;
use ecmp_routing::lines::{
    copy_bytes, parse_link, parse_metric, parse_source, same_bytes, split_fields,
};
use ecmp_routing::tables::{unicast_routes, Route};
use ecmp_routing::topology::{multicast_sources, Error, Topology};

fn bytes(s: &str) -> Vec<u8> {
    s.as_bytes().to_vec()
}

#[test]
fn fields_are_cut_at_every_space() {
    assert_eq!(split_fields(b"a b 3"), vec![bytes("a"), bytes("b"), bytes("3")]);
    assert_eq!(split_fields(b""), vec![bytes("")]);
    assert_eq!(split_fields(b"one"), vec![bytes("one")]);
    assert_eq!(split_fields(b"a  b"), vec![bytes("a"), bytes(""), bytes("b")]);
    assert_eq!(split_fields(b" a "), vec![bytes(""), bytes("a"), bytes("")]);
    assert_eq!(split_fields(b"a\tb"), vec![bytes("a\tb")]);
}

#[test]
fn fields_agree_with_splitting_a_string() {
    let lines =
        ["", " ", "  ", "r1 r2 10", "x  y", " lead", "trail ", "a b c d e", "\u{e9}t\u{e9} b 1"];
    for line in lines {
        let expected: Vec<Vec<u8>> = line.split(' ').map(|p| p.as_bytes().to_vec()).collect();
        assert_eq!(split_fields(line.as_bytes()), expected, "line {:?}", line);
    }
}

#[test]
fn metric_is_a_decimal_number() {
    assert_eq!(parse_metric(b"0"), Some(0));
    assert_eq!(parse_metric(b"7"), Some(7));
    assert_eq!(parse_metric(b"+7"), Some(7));
    assert_eq!(parse_metric(b"-7"), Some(-7));
    assert_eq!(parse_metric(b"00012"), Some(12));
    assert_eq!(parse_metric(b"-0"), Some(0));
    assert_eq!(parse_metric(b"2147483647"), Some(i32::MAX));
    assert_eq!(parse_metric(b"-2147483648"), Some(i32::MIN));
}

#[test]
fn metric_out_of_range_or_malformed_is_none() {
    assert_eq!(parse_metric(b"2147483648"), None);
    assert_eq!(parse_metric(b"+2147483648"), None);
    assert_eq!(parse_metric(b"-2147483649"), None);
    assert_eq!(parse_metric(b"99999999999999999999999999999"), None);
    assert_eq!(parse_metric(b""), None);
    assert_eq!(parse_metric(b"+"), None);
    assert_eq!(parse_metric(b"-"), None);
    assert_eq!(parse_metric(b"--1"), None);
    assert_eq!(parse_metric(b"1a"), None);
    assert_eq!(parse_metric(b"a1"), None);
    assert_eq!(parse_metric(b" 1"), None);
    assert_eq!(parse_metric(b"1 "), None);
    assert_eq!(parse_metric(b"1_000"), None);
    assert_eq!(parse_metric(b"1.5"), None);
    assert_eq!(parse_metric(b"99999999999x"), None);
}

#[test]
fn metric_agrees_with_parsing_a_string() {
    for text in [
        "0", "1", "-1", "+1", "12", "0012", "2147483647", "2147483648", "-2147483648",
        "-2147483649", "4294967296", "", "+", "-", "+-1", "1+", "0x10", "1e3", " 5", "5 ", "/", ":",
        "9", "-9", "+0", "-00", "18446744073709551616",
    ] {
        assert_eq!(parse_metric(text.as_bytes()), text.parse::<i32>().ok(), "text {:?}", text);
    }
}

#[test]
fn link_line_has_two_names_and_a_metric() {
    assert_eq!(parse_link(b"r1 r2 10"), Some((bytes("r1"), bytes("r2"), 10)));
    assert_eq!(parse_link(b"r1 r2 10 and more"), Some((bytes("r1"), bytes("r2"), 10)));
    assert_eq!(parse_link(b" r2 -3"), Some((bytes(""), bytes("r2"), -3)));
    assert_eq!(parse_link(b"r1 r2"), None);
    assert_eq!(parse_link(b"r1 r2 "), None);
    assert_eq!(parse_link(b"r1 r2 ten"), None);
    assert_eq!(parse_link(b"r1  r2 10"), None);
    assert_eq!(parse_link(b""), None);
}

#[test]
fn source_line_has_a_name_and_an_address() {
    assert_eq!(parse_source(b"r1 ff0a::1"), Some((bytes("r1"), bytes("ff0a::1"))));
    assert_eq!(parse_source(b"r1 ff0a::1 x"), Some((bytes("r1"), bytes("ff0a::1"))));
    assert_eq!(parse_source(b"r1 "), Some((bytes("r1"), bytes(""))));
    assert_eq!(parse_source(b"r1"), None);
    assert_eq!(parse_source(b""), None);
}

#[test]
fn bytes_are_copied_and_compared() {
    assert_eq!(copy_bytes(b"abc"), bytes("abc"));
    assert_eq!(copy_bytes(b""), bytes(""));
    assert!(same_bytes(b"abc", b"abc"));
    assert!(same_bytes(b"", b""));
    assert!(!same_bytes(b"abc", b"abd"));
    assert!(!same_bytes(b"abc", b"ab"));
    assert!(!same_bytes(b"ab", b"abc"));
}

#[test]
fn topology_numbers_names_in_order_of_appearance() {
    let mut topo = Topology::new();
    assert_eq!(topo.len(), 0);
    assert_eq!(topo.get_neighbours(), Vec::<Vec<(usize, i32)>>::new());
    topo.add_link(bytes("a"), bytes("b"), 3);
    topo.add_link(bytes("c"), bytes("a"), 5);
    topo.add_link(bytes("b"), bytes("c"), -2);
    assert_eq!(topo.len(), 3);
    assert_eq!(topo.node_id(b"a"), Some(0));
    assert_eq!(topo.node_id(b"b"), Some(1));
    assert_eq!(topo.node_id(b"c"), Some(2));
    assert_eq!(topo.node_id(b"d"), None);
    assert_eq!(topo.node_id(b""), None);
    assert_eq!(
        topo.get_neighbours(),
        vec![vec![(1, 3), (2, 5)], vec![(0, 3), (2, -2)], vec![(0, 5), (1, -2)]]
    );
}

#[test]
fn topology_link_of_a_node_with_itself() {
    let mut topo = Topology::new();
    topo.add_link(bytes("x"), bytes("x"), 4);
    assert_eq!(topo.len(), 1);
    assert_eq!(topo.get_neighbours(), vec![vec![(0, 4), (0, 4)]]);
}

#[test]
fn topology_takes_lines() {
    let mut topo = Topology::new();
    assert!(topo.add_line(b"r1 r2 1"));
    assert!(topo.add_line(b"r2 r3 1"));
    assert!(!topo.add_line(b"r1 r3"));
    assert!(!topo.add_line(b"r1 r4 x"));
    assert!(topo.add_line(b"r1 r3 2"));
    assert_eq!(topo.len(), 3);
    assert_eq!(topo.node_id(b"r4"), None);
    let graph = topo.get_neighbours();
    assert_eq!(graph, vec![vec![(1, 1), (2, 2)], vec![(0, 1), (2, 1)], vec![(1, 1), (0, 2)]]);
    let preds = dijkstra(&graph, &0).unwrap();
    let mut list = preds[&2].clone();
    list.sort();
    assert_eq!(list, vec![0, 1]);
    assert_eq!(
        unicast_routes(&graph, 0).unwrap(),
        vec![
            Route { destination: 1, hop: 1, interface: 0 },
            Route { destination: 2, hop: 1, interface: 0 },
        ]
    );
}

#[test]
fn multicast_sources_are_looked_up() {
    let mut topo = Topology::new();
    topo.add_link(bytes("a"), bytes("b"), 1);
    let none: Vec<(Vec<u8>, Vec<u8>)> = Vec::new();
    assert_eq!(multicast_sources(&topo, &none), Ok(Vec::new()));
    let one = vec![(bytes("b"), bytes("ff0a::1"))];
    assert_eq!(multicast_sources(&topo, &one), Ok(vec![(1, bytes("ff0a::1"))]));
}

#[test]
fn multicast_source_without_node_is_refused() {
    let mut topo = Topology::new();
    topo.add_link(bytes("a"), bytes("b"), 1);
    let one = vec![(bytes("z"), bytes("ff0a::1"))];
    assert_eq!(multicast_sources(&topo, &one), Err(Error::MissingNone));
    // A name without node counts before the number of entries.
    let three = vec![
        (bytes("a"), bytes("ff0a::1")),
        (bytes("b"), bytes("ff0a::2")),
        (bytes("z"), bytes("ff0a::3")),
    ];
    assert_eq!(multicast_sources(&topo, &three), Err(Error::MissingNone));
}

#[test]
fn second_multicast_address_is_refused() {
    let mut topo = Topology::new();
    topo.add_link(bytes("a"), bytes("b"), 1);
    let two = vec![(bytes("a"), bytes("ff0a::1")), (bytes("b"), bytes("ff0a::2"))];
    assert_eq!(multicast_sources(&topo, &two), Err(Error::TooManyMcAddrs));
}
