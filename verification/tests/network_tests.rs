use roadnet::junction::Junction;
use roadnet::network::{Link, Network, NetworkBuilder, Segment, Tile};
use roadnet::route::{CompassDirection, Route, TurnDirection};

fn junctions(ids: &[u32]) -> Vec<Junction> {
    ids.iter().map(|&id| Junction::new(id)).collect()
}

fn links(recs: &[(u16, u32, u32)]) -> Vec<Link> {
    recs.iter()
        .map(|&(id, o, d)| Link::from_record(id, o, d))
        .collect()
}

fn tiles(recs: &[(u16, u16)]) -> Vec<Tile> {
    recs.iter().map(|&(id, link)| Tile::new(id, link)).collect()
}

fn segments(recs: &[(u16, u32)]) -> Vec<Segment> {
    recs.iter()
        .map(|&(tile, heading)| Segment::from_record(tile, heading, 0))
        .collect()
}

/// Two junctions joined by one link heading north.
fn onelink() -> Network {
    Network::from_records(
        links(&[(1, 1, 2)]),
        junctions(&[1, 2]),
        &vec![(1, 1, 0), (2, 1, 180)],
        tiles(&[(1, 1), (2, 1)]),
        segments(&[(1, 0), (2, 0)]),
    )
}

/// Three junctions in a northward line.
fn twolinks() -> Network {
    Network::from_records(
        links(&[(1, 1, 2), (2, 2, 3)]),
        junctions(&[1, 2, 3]),
        &vec![(1, 1, 0), (2, 2, 0), (2, 1, 180), (3, 2, 180)],
        tiles(&[(1, 1), (2, 2)]),
        segments(&[(1, 0), (2, 0)]),
    )
}

/// A grid: junction 2 in the middle with its four cardinal neighbours,
/// and a further stub north of junction 3.
fn fivelinks() -> Network {
    Network::from_records(
        links(&[(1, 1, 2), (2, 2, 3), (3, 3, 6), (4, 2, 4), (5, 2, 5)]),
        junctions(&[1, 2, 3, 4, 5, 6]),
        &vec![
            (1, 1, 0),
            (2, 2, 0),
            (2, 4, 90),
            (2, 1, 180),
            (2, 5, 270),
            (3, 3, 0),
            (3, 2, 180),
            (4, 4, 270),
            (5, 5, 90),
            (6, 3, 180),
        ],
        tiles(&[(1, 1), (2, 2), (3, 3), (4, 4), (5, 5)]),
        segments(&[(1, 0), (2, 0), (3, 0), (4, 90), (5, 270)]),
    )
}

/// Junction 2 in the middle of four links at the cardinal headings.
fn crossroads() -> Network {
    Network::from_records(
        links(&[(1, 1, 2), (2, 2, 3), (3, 2, 4), (4, 2, 5)]),
        junctions(&[1, 2, 3, 4, 5]),
        &vec![
            (1, 1, 0),
            (2, 2, 0),
            (2, 3, 90),
            (2, 1, 180),
            (2, 4, 270),
            (3, 2, 180),
            (4, 3, 270),
            (5, 4, 90),
        ],
        tiles(&[(1, 1), (2, 2), (3, 3), (4, 4)]),
        segments(&[(1, 0), (2, 0), (3, 90), (4, 270)]),
    )
}

/// A fork: junction 2 continues north and branches north-west by
/// compass convention (heading 315).
fn yjunction() -> Network {
    Network::from_records(
        links(&[(1, 1, 2), (2, 2, 3), (3, 2, 4)]),
        junctions(&[1, 2, 3, 4]),
        &vec![
            (1, 1, 0),
            (2, 2, 0),
            (2, 1, 180),
            (2, 3, 315),
            (3, 2, 180),
            (4, 3, 135),
        ],
        tiles(&[(1, 1), (2, 2), (3, 3)]),
        segments(&[(1, 0), (2, 0), (3, 315)]),
    )
}

#[test]
fn test_network_builder_add() {
    let mut sut = NetworkBuilder::new();
    sut.add_junction();
    assert_eq!(sut.junctions.len(), 1);
    sut.create_link();
    let network = sut.build();
    assert_eq!(1, network.num_links());
}

#[test]
fn test_create_network_links() {
    assert_eq!(1, onelink().num_links());
    assert_eq!(2, twolinks().num_links());
}

#[test]
fn test_create_network_junctions() {
    let onelink = onelink();
    assert_eq!(2, onelink.num_junctions());
    assert_eq!(1, onelink.get_junc(1).num_links());
    assert_eq!(1, onelink.get_junc(2).num_links());
    let twolinks = twolinks();
    assert_eq!(3, twolinks.num_junctions());
    assert_eq!(2, twolinks.get_junc(2).num_links());
    assert_eq!(1, twolinks.get_junc(3).num_links());
}

#[test]
fn test_create_network_tiles() {
    assert_eq!(2, onelink().num_tiles());
}

#[test]
fn test_create_network_segments() {
    assert_eq!(2, onelink().num_segments());
}

#[test]
fn test_spanning_tree_num_nodes() {
    assert_eq!(2, onelink().spanning_tree.num_nodes());
}

#[test]
fn test_spanning_tree_covers_reachable_fixtures() {
    assert_eq!(3, twolinks().spanning_tree.num_nodes());
    assert_eq!(6, fivelinks().spanning_tree.num_nodes());
}

#[test]
fn test_depth_first_traversal_order() {
    assert_eq!(vec![1u32, 2], onelink().depth_first_traversal());
    assert_eq!(vec![1u32, 2, 3], twolinks().depth_first_traversal());
    assert_eq!(vec![1u32, 2, 3, 6, 4, 5], fivelinks().depth_first_traversal());
    let tree_order = fivelinks().spanning_tree.depth_first_traversal();
    assert_eq!(vec![0usize, 1, 2, 3, 4, 5], tree_order);
}

#[test]
fn test_routing() {
    let onelink = onelink();
    let hop = onelink.route(1, 1, 2, true).unwrap();
    assert_eq!(2, hop.dest_junc);
    assert_eq!(0, hop.exit);
    let twolinks = twolinks();
    let hop = twolinks.route(1, 1, 2, true).unwrap();
    assert_eq!(2, hop.dest_junc);
    assert_eq!(0, hop.exit);
    let hop = twolinks.route(1, 1, 3, true).unwrap();
    assert_eq!(3, hop.dest_junc);
    assert_eq!(0, hop.exit);
}

#[test]
fn test_routing_no_match() {
    let onelink = onelink();
    assert!(onelink.route(2, 1, 9, true).is_none());
}

#[test]
fn test_routing_table_has_no_duplicates() {
    for network in [onelink(), twolinks(), fivelinks(), crossroads(), yjunction()] {
        let hops = &network.routing.hops;
        for i in 0..hops.len() {
            for j in (i + 1)..hops.len() {
                assert!(hops[i] != hops[j]);
            }
        }
    }
}

#[test]
fn test_exit_headings_sorted_after_load() {
    for network in [onelink(), twolinks(), fivelinks(), crossroads(), yjunction()] {
        for junction in &network.junctions {
            for w in junction.links.windows(2) {
                assert!(w[0].exit <= w[1].exit);
            }
        }
    }
}

#[test]
fn test_find_exit() {
    let onelink = onelink();
    let from = onelink.get_junc(1).clone();
    let to = onelink.get_junc(2).clone();
    assert_eq!(0, onelink.find_exit(&from, &to));
    let twolinks = twolinks();
    let from = twolinks.get_junc(2).clone();
    let to = twolinks.get_junc(3).clone();
    assert_eq!(0, twolinks.find_exit(&from, &to));
}

#[test]
fn test_find_exit_by_heading() {
    let twolinks = twolinks();
    assert_eq!(0, twolinks.find_exit_by_heading(twolinks.get_junc(2), 0));
    let crossroads = crossroads();
    let junc = crossroads.get_junc(2);
    assert_eq!(0, crossroads.find_exit_by_heading(junc, 0));
    assert_eq!(1, crossroads.find_exit_by_heading(junc, 90));
    assert_eq!(2, crossroads.find_exit_by_heading(junc, 180));
    assert_eq!(3, crossroads.find_exit_by_heading(junc, 270));
}

#[test]
fn test_find_closest_entry() {
    let crossroads = crossroads();
    let junc = crossroads.get_junc(2);
    assert_eq!(2, junc.find_entry(0));
    assert_eq!(2, junc.find_entry(10));
    assert_eq!(2, junc.find_entry(45));
    assert_eq!(0, junc.find_entry(180));
    assert_eq!(1, junc.find_entry(270));
    assert_eq!(3, junc.find_entry(90));
}

#[test]
fn test_find_exit_from_compass() {
    let twolinks = twolinks();
    assert_eq!(
        0,
        twolinks.get_junc(2).find_exit_from_compass(CompassDirection::North)
    );
    let crossroads = crossroads();
    let junc = crossroads.get_junc(2);
    assert_eq!(0, junc.find_exit_from_compass(CompassDirection::North));
    assert_eq!(3, junc.find_exit_from_compass(CompassDirection::NorthEast));
    assert_eq!(3, junc.find_exit_from_compass(CompassDirection::East));
    assert_eq!(1, junc.find_exit_from_compass(CompassDirection::West));
    assert_eq!(2, junc.find_exit_from_compass(CompassDirection::South));
    let yjunction = yjunction();
    let junc = yjunction.get_junc(2);
    assert_eq!(0, junc.find_exit_from_compass(CompassDirection::North));
    assert_eq!(2, junc.find_exit_from_compass(CompassDirection::NorthEast));
    assert_eq!(2, junc.find_exit_from_compass(CompassDirection::East));
}

#[test]
fn test_relative_exit() {
    let twolinks = twolinks();
    assert_eq!(0, twolinks.get_junc(2).find_relative_exit(1, 1));
    let crossroads = crossroads();
    let junc = crossroads.get_junc(2);
    assert_eq!(1, junc.find_relative_exit(2, 1));
    assert_eq!(0, junc.find_relative_exit(2, 2));
    assert_eq!(1, junc.find_relative_exit(3, 2));
    let yjunction = yjunction();
    let junc = yjunction.get_junc(2);
    assert_eq!(0, junc.find_relative_exit(1, 1));
    assert_eq!(2, junc.find_relative_exit(1, 2));
}

#[test]
fn test_find_exit_from_turn_direction() {
    let twolinks = twolinks();
    let junc = twolinks.get_junc(2);
    assert_eq!(0, junc.find_exit_from_turn_direction(1, TurnDirection::Straight));
    assert_eq!(1, junc.find_exit_from_turn_direction(0, TurnDirection::Straight));
    let crossroads = crossroads();
    let junc = crossroads.get_junc(2);
    assert_eq!(0, junc.find_exit_from_turn_direction(2, TurnDirection::Straight));
    assert_eq!(1, junc.find_exit_from_turn_direction(2, TurnDirection::Left));
    assert_eq!(3, junc.find_exit_from_turn_direction(0, TurnDirection::Left));
    assert_eq!(3, junc.find_exit_from_turn_direction(1, TurnDirection::Straight));
    assert_eq!(0, junc.find_exit_from_turn_direction(3, TurnDirection::Right));
    assert_eq!(2, junc.find_exit_from_turn_direction(2, TurnDirection::UTurn));
    assert_eq!(1, junc.find_exit_from_turn_direction(1, TurnDirection::UTurn));
    assert_eq!(0, junc.find_exit_from_turn_direction(0, TurnDirection::UTurn));
    assert_eq!(3, junc.find_exit_from_turn_direction(3, TurnDirection::UTurn));
    let yjunction = yjunction();
    let junc = yjunction.get_junc(2);
    assert_eq!(0, junc.find_exit_from_turn_direction(1, TurnDirection::Straight));
    assert_eq!(2, junc.find_exit_from_turn_direction(1, TurnDirection::Right));
}

#[test]
fn test_first_segment_for_link() {
    let onelink = onelink();
    assert_eq!(0, onelink.first_segment_for_link(onelink.get_link(1)).unwrap().heading);
    let yjunction = yjunction();
    assert_eq!(
        315,
        yjunction.first_segment_for_link(yjunction.get_link(3)).unwrap().heading
    );
    let fivelinks = fivelinks();
    assert_eq!(
        90,
        fivelinks.first_segment_for_link(fivelinks.get_link(4)).unwrap().heading
    );
    assert_eq!(
        270,
        fivelinks.first_segment_for_link(fivelinks.get_link(5)).unwrap().heading
    );
}

#[test]
fn test_last_segment_for_link() {
    let onelink = onelink();
    assert_eq!(0, onelink.last_segment_for_link(onelink.get_link(1)).unwrap().heading);
    let yjunction = yjunction();
    assert_eq!(
        315,
        yjunction.last_segment_for_link(yjunction.get_link(3)).unwrap().heading
    );
    let fivelinks = fivelinks();
    assert_eq!(
        90,
        fivelinks.last_segment_for_link(fivelinks.get_link(4)).unwrap().heading
    );
    assert_eq!(
        270,
        fivelinks.last_segment_for_link(fivelinks.get_link(5)).unwrap().heading
    );
}

fn eval(network: &Network, text: &str) -> Vec<(u32, usize)> {
    network.evaluate_route(&Route::parse(text))
}

#[test]
fn test_evaluate_route_straight_twolinks() {
    assert_eq!(
        vec![(2u32, 0usize)],
        eval(&twolinks(), "1 -1.825 200.0 1 Relative:Straight Count:1")
    );
}

#[test]
fn test_evaluate_route_straight_twice() {
    assert_eq!(
        vec![(2u32, 0usize), (3, 0)],
        eval(&fivelinks(), "1 -1.825 200.0 1 Relative:Straight Count:2")
    );
}

#[test]
fn test_evaluate_route_relative_turns() {
    let network = fivelinks();
    assert_eq!(vec![(2u32, 1usize)], eval(&network, "1 -1.825 200.0 1 Relative:Left Count:1"));
    assert_eq!(vec![(2u32, 3usize)], eval(&network, "1 -1.825 200.0 1 Relative:Right Count:1"));
    assert_eq!(vec![(2u32, 2usize)], eval(&network, "1 -1.825 200.0 1 Relative:UTurn Count:1"));
    assert_eq!(
        vec![(2u32, 0usize), (3, 0)],
        eval(&network, "1 -1.825 200.0 1 Relative:Straight Always")
    );
    assert_eq!(vec![(2u32, 1usize)], eval(&network, "1 -1.825 200.0 1 Relative:Left Always"));
}

#[test]
fn test_evaluate_route_compass() {
    let network = fivelinks();
    assert_eq!(
        vec![(2u32, 0usize), (3, 0)],
        eval(&network, "1 -1.825 200.0 1 Compass:North Always")
    );
    assert_eq!(vec![(2u32, 1usize)], eval(&network, "1 -1.825 200.0 1 Compass:West Always"));
    assert_eq!(vec![(2u32, 3usize)], eval(&network, "1 -1.825 200.0 1 Compass:East Always"));
    assert_eq!(vec![(2u32, 2usize)], eval(&network, "1 -1.825 200.0 1 Compass:South Always"));
}

#[test]
fn test_evaluate_route_numbered_exits() {
    let network = fivelinks();
    assert_eq!(vec![(2u32, 0usize)], eval(&network, "1 -1.825 200.0 1 Exit:2 Count:1"));
    assert_eq!(vec![(2u32, 1usize)], eval(&network, "1 -1.825 200.0 1 Exit:1 Count:1"));
}

#[test]
fn test_evaluate_route_headings() {
    let network = fivelinks();
    assert_eq!(vec![(2u32, 0usize)], eval(&network, "1 -1.825 200.0 1 Heading:0 Count:1"));
    assert_eq!(vec![(2u32, 1usize)], eval(&network, "1 -1.825 200.0 1 Heading:90 Count:1"));
    assert_eq!(vec![(2u32, 3usize)], eval(&network, "1 -1.825 200.0 1 Heading:270 Count:1"));
    assert_eq!(vec![(2u32, 2usize)], eval(&network, "1 -1.825 200.0 1 Heading:180 Count:1"));
    assert_eq!(vec![(2u32, 2usize)], eval(&yjunction(), "1 -1.825 200.0 1 Heading:315 Count:1"));
}

#[test]
fn test_evaluate_route_reversed() {
    assert_eq!(
        vec![(2u32, 1usize)],
        eval(&twolinks(), "2 1.825 200.0 -1 Heading:180 Count:1")
    );
    assert_eq!(
        vec![(2u32, 1usize)],
        eval(&yjunction(), "3 1.825 200.0 -1 Heading:180 Count:1")
    );
    assert_eq!(
        vec![(3u32, 1usize), (2, 2)],
        eval(&fivelinks(), "3 1.825 200.0 -1 Heading:180 Count:2")
    );
    assert_eq!(
        vec![(2u32, 0usize), (3, 0)],
        eval(&fivelinks(), "4 1.825 200.0 -1 Compass:North Always")
    );
    assert_eq!(
        vec![(2u32, 0usize), (3, 0)],
        eval(&fivelinks(), "4 1.825 200.0 -1 Heading:0 Always")
    );
}

#[test]
fn test_evaluate_route_is_deterministic() {
    let network = fivelinks();
    let text = "1 -1.825 200.0 1 Relative:Straight Count:2";
    let first = eval(&network, text);
    let second = eval(&network, text);
    assert_eq!(first, second);
}

#[test]
fn test_evaluate_route_missing_start_link() {
    assert!(eval(&onelink(), "9 0.0 0.0 1 Relative:Straight Count:1").is_empty());
}
