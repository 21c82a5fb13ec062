use severance::builder::build_graph;
use severance::create::{
    cross_anywhere, frame_around, gradient, project, read_gradients, scrape_osm, walking_profile,
};
use severance::disconnected::find_connected_components;
use severance::error::Error;
use severance::fix_osm::{envelope, find_separate_sidewalks, intersects, Footways};
use severance::geometry::Pt;
use severance::graph::{Direction, Graph, IntersectionID, RoadID, Walker};
use severance::isochrone::{get_costs, Shape, Style};
use severance::mercator::Mercator;
use severance::model::MapModel;
use severance::osm::{NodeID, WayID};
use severance::osm_reader::Element;
use severance::profiles::{CrossingKind, Profile, RoadKind};
use severance::route::{do_route, CompareRouteRequest};
use severance::router::{route, search, snap_to_road, PathStep};
use severance::scores::{along_severances, calculate, get_crossing_distances, Line};
use severance::settings::Settings;
use severance::severance::{post_process_graph, should_split};
use severance::tags::Tags;

fn tags(kv: &[&str]) -> Tags {
    let mut tags = Tags::empty();
    for pair in kv {
        let parts = pair.split('=').collect::<Vec<_>>();
        tags.insert(parts[0], parts[1]);
    }
    tags
}

fn node(id: i64, x: i32, y: i32) -> Element {
    Element::Node { id: NodeID(id), lon: x, lat: y, tags: Tags::empty() }
}

fn tagged_node(id: i64, x: i32, y: i32, kv: &[&str]) -> Element {
    Element::Node { id: NodeID(id), lon: x, lat: y, tags: tags(kv) }
}

fn way(id: i64, nodes: &[i64], kv: &[&str]) -> Element {
    Element::Way {
        id: WayID(id),
        node_ids: nodes.iter().map(|n| NodeID(*n)).collect(),
        tags: tags(kv),
    }
}

/// The model of the elements in a frame in which a ten-millionth of a degree is a centimetre,
/// and north is down.
fn model_for(elements: &Vec<Element>, profile: Profile) -> MapModel {
    let g = build_graph(elements, profile).unwrap();
    let f = frame_around(&g, 0, 0).unwrap();
    let width = (f.max_lon - f.min_lon) as u32;
    let height = (f.max_lat - f.min_lat) as u32;
    MapModel::create(elements, profile, width, height).unwrap()
}

fn model(elements: &Vec<Element>) -> MapModel {
    model_for(elements, Profile::SidewalksOnHighways)
}

/// The planar point of the place (x, y) in such a frame.
fn at(f: Mercator, x: i32, y: i32) -> Pt {
    Pt { x: x - f.min_lon, y: f.max_lat - y }
}

fn check_consistent(g: &Graph) {
    for (r, road) in g.roads.iter().enumerate() {
        assert_eq!(road.id, RoadID(r));
        assert!(road.linestring.len() >= 2);
        assert_eq!(road.linestring[0], g.intersections[road.src_i.0].point);
        assert_eq!(*road.linestring.last().unwrap(), g.intersections[road.dst_i.0].point);
        assert!(g.intersections[road.src_i.0].roads.contains(&road.id));
        assert!(g.intersections[road.dst_i.0].roads.contains(&road.id));
    }
    for (i, intersection) in g.intersections.iter().enumerate() {
        assert_eq!(intersection.id, IntersectionID(i));
        for (k, id) in intersection.roads.iter().enumerate() {
            let road = &g.roads[id.0];
            assert!(road.src_i.0 == i || road.dst_i.0 == i);
            assert!(!intersection.roads[..k].contains(id));
        }
        for road in &g.roads {
            if road.src_i.0 == i || road.dst_i.0 == i {
                assert!(intersection.roads.contains(&road.id));
            }
        }
    }
}

fn t_junction(with_crossing: bool) -> Vec<Element> {
    let mut elements = vec![
        node(1, 0, 50_000),
        node(2, 50_000, 50_000),
        node(3, 100_000, 50_000),
        node(4, 50_000, 100_000),
        node(5, 50_000, 0),
        node(6, 60_000, 60_000),
        way(10, &[1, 2, 3], &["highway=primary", "name=Main Road"]),
        way(11, &[2, 4], &["highway=residential"]),
        way(12, &[2, 5], &["highway=residential", "layer=1"]),
    ];
    if with_crossing {
        elements.push(way(13, &[2, 6], &["highway=footway", "footway=crossing"]));
    }
    elements
}

#[test]
fn ways_are_split_at_shared_nodes() {
    let g = build_graph(&t_junction(false), Profile::SidewalksOnHighways).unwrap();
    check_consistent(&g);
    assert_eq!(g.roads.len(), 4);
    assert_eq!(g.intersections.len(), 5);
    assert_eq!(g.roads[0].way, WayID(10));
    assert_eq!(g.roads[0].node_ids, vec![NodeID(1), NodeID(2)]);
    assert_eq!(g.roads[0].node1, NodeID(1));
    assert_eq!(g.roads[0].node2, NodeID(2));
    assert_eq!(g.roads[0].linestring, vec![Pt { x: 0, y: 50_000 }, Pt { x: 50_000, y: 50_000 }]);
    assert_eq!(g.roads[1].way, WayID(10));
    assert_eq!(g.roads[1].node_ids, vec![NodeID(2), NodeID(3)]);
    assert_eq!(g.roads[2].way, WayID(11));
    assert_eq!(g.roads[3].way, WayID(12));
    assert_eq!(g.roads[0].kind, RoadKind::Severance);
    assert_eq!(g.roads[2].kind, RoadKind::WithTraffic);
    assert!(g.roads[0].tags.is("name", "Main Road"));
    assert_eq!(g.roads[0].walking.access, Direction::Neither);
    // the junction is one intersection with four roads
    let junction = g.roads[0].dst_i;
    assert_eq!(g.intersections[junction.0].node, NodeID(2));
    assert_eq!(g.intersections[junction.0].roads.len(), 4);
    assert_eq!(g.roads[1].src_i, junction);
    assert_eq!(g.roads[2].src_i, junction);
    assert_eq!(g.roads[3].src_i, junction);
    assert_eq!(g.num_roads(), 4);
    assert_eq!(g.num_intersections(), 5);
}

#[test]
fn ways_that_are_not_kept_make_no_roads() {
    let elements = vec![
        node(1, 0, 0),
        node(2, 100, 0),
        node(3, 200, 0),
        way(10, &[1, 2], &["building=yes"]),
        way(11, &[2, 3], &["highway=residential"]),
        way(12, &[3], &["highway=residential"]),
        way(13, &[], &["highway=residential"]),
    ];
    let g = build_graph(&elements, Profile::SidewalksOnHighways).unwrap();
    assert_eq!(g.roads.len(), 1);
    assert_eq!(g.intersections.len(), 2);
    // the same ways under a profile that trusts no road without a sidewalk
    let g = build_graph(&elements, Profile::SeparateWays).unwrap();
    assert_eq!(g.roads.len(), 0);
    assert_eq!(g.intersections.len(), 0);
}

#[test]
fn a_closed_way_is_a_loop_road() {
    let elements = vec![
        node(1, 0, 0),
        node(2, 100, 0),
        node(3, 100, 100),
        way(10, &[1, 2, 3, 1], &["highway=footway"]),
    ];
    let g = build_graph(&elements, Profile::SidewalksOnHighways).unwrap();
    check_consistent(&g);
    assert_eq!(g.roads.len(), 1);
    assert_eq!(g.intersections.len(), 1);
    assert_eq!(g.roads[0].src_i, g.roads[0].dst_i);
    assert_eq!(g.intersections[0].roads, vec![RoadID(0)]);
    assert_eq!(g.roads[0].linestring.len(), 4);
}

#[test]
fn a_way_through_a_missing_node_is_malformed() {
    let elements = vec![node(1, 0, 0), way(10, &[1, 2], &["highway=residential"])];
    assert_eq!(build_graph(&elements, Profile::SidewalksOnHighways).err(), Some(Error::InputMalformed));
    assert_eq!(
        MapModel::create(&elements, Profile::SidewalksOnHighways, 100, 100).err(),
        Some(Error::InputMalformed)
    );
    // a building through a missing node
    let elements = vec![
        node(1, 0, 0),
        node(2, 100, 0),
        way(10, &[1, 2], &["highway=residential"]),
        way(11, &[1, 2, 3], &["building=yes"]),
    ];
    assert_eq!(
        MapModel::create(&elements, Profile::SidewalksOnHighways, 100, 100).err(),
        Some(Error::InputMalformed)
    );
}

#[test]
fn an_area_without_roads_is_empty() {
    let elements = vec![node(1, 0, 0), node(2, 100, 0), way(10, &[1, 2], &["building=yes"])];
    assert_eq!(
        MapModel::create(&elements, Profile::SidewalksOnHighways, 100, 100).err(),
        Some(Error::EmptyArea)
    );
    assert_eq!(
        MapModel::create(&vec![], Profile::USA, 100, 100).err(),
        Some(Error::EmptyArea)
    );
    // a loop alone has one intersection only
    let elements = vec![
        node(1, 0, 0),
        node(2, 100, 0),
        node(3, 100, 100),
        way(10, &[1, 2, 3, 1], &["highway=footway"]),
    ];
    assert_eq!(
        MapModel::create(&elements, Profile::SidewalksOnHighways, 100, 100).err(),
        Some(Error::EmptyArea)
    );
}

#[test]
fn t_junction_is_taken_apart() {
    let mut g = build_graph(&t_junction(false), Profile::SidewalksOnHighways).unwrap();
    let junction = g.roads[0].dst_i.0;
    assert!(should_split(&g, junction));
    assert!(!should_split(&g, g.roads[0].src_i.0));
    post_process_graph(&mut g);
    check_consistent(&g);
    assert_eq!(g.roads.len(), 4);
    assert_eq!(g.intersections.len(), 7);
    // the severances stay at the junction, each street with traffic has a stub of its own
    assert_eq!(g.intersections[junction].roads, vec![RoadID(0), RoadID(1)]);
    assert_eq!(g.roads[2].src_i, IntersectionID(5));
    assert_eq!(g.roads[3].src_i, IntersectionID(6));
    assert_eq!(g.intersections[5].roads, vec![RoadID(2)]);
    assert_eq!(g.intersections[6].roads, vec![RoadID(3)]);
    assert_eq!(g.intersections[5].point, g.intersections[junction].point);
    assert_eq!(g.intersections[5].node, NodeID(2));
    // no intersection is left at which a severance and a street with traffic meet
    for intersection in &g.intersections {
        let kinds: Vec<RoadKind> = intersection.roads.iter().map(|r| g.roads[r.0].kind).collect();
        assert!(
            !(kinds.contains(&RoadKind::Severance) && kinds.contains(&RoadKind::WithTraffic))
        );
    }
    // a second pass finds nothing to do
    post_process_graph(&mut g);
    assert_eq!(g.intersections.len(), 7);
}

#[test]
fn t_junction_cuts_residentials_off() {
    let mut map = model(&t_junction(false));
    let f = map.mercator;
    check_consistent(&map.graph);
    assert_eq!(map.graph.intersections.len(), 7);
    // from the end of the one residential road to the end of the other
    let answer = do_route(&mut map, at(f, 50_000, 100_000), at(f, 50_000, 0), Settings::uk());
    assert_eq!(answer.err(), Some(Error::NoPath));
    // nor does somebody get there who walks along severances
    let anywhere = Settings { obey_crossings: false, ..Settings::uk() };
    let answer = do_route(&mut map, at(f, 50_000, 100_000), at(f, 50_000, 0), anywhere);
    assert_eq!(answer.err(), Some(Error::NoPath));
    // the primary road is no road to take under the walking profile
    assert_eq!(map.graph.roads[0].walking.access, Direction::Neither);
    assert_eq!(map.graph.roads[0].cross_anywhere.access, Direction::Both);
    assert_eq!(map.graph.roads[2].walking.access, Direction::Both);
}

#[test]
fn t_junction_with_a_crossing_stays_whole() {
    let mut map = model(&t_junction(true));
    let f = map.mercator;
    check_consistent(&map.graph);
    assert_eq!(map.graph.intersections.len(), 6);
    let answer =
        do_route(&mut map, at(f, 50_000, 100_000), at(f, 50_000, 0), Settings::uk()).unwrap();
    assert_eq!(
        answer.steps,
        vec![
            PathStep { road: RoadID(2), forwards: false },
            PathStep { road: RoadID(3), forwards: true }
        ]
    );
    assert_eq!(answer.route_length, 100_000);
    assert_eq!(answer.direct_length, 100_000);
    assert_eq!(answer.directions.len(), 2);
    assert_eq!(answer.directions[0].way, WayID(11));
    assert_eq!(answer.directions[0].name, None);
    assert_eq!(answer.directions[0].layer, "0");
    assert_eq!(answer.directions[0].kind, RoadKind::WithTraffic);
    assert_eq!(answer.directions[1].layer, "1");
    assert_eq!(
        answer.linestring,
        vec![at(f, 50_000, 100_000), at(f, 50_000, 50_000), at(f, 50_000, 0)]
    );
}

fn straight_road(kv: &[&str]) -> Vec<Element> {
    vec![node(1, 0, 0), node(2, 10_000, 0), way(10, &[1, 2], kv)]
}

#[test]
fn a_hundred_metres_take_75_seconds() {
    let mut map = model(&straight_road(&["highway=residential"]));
    let f = map.mercator;
    let answer = do_route(&mut map, at(f, 0, 0), at(f, 10_000, 0), Settings::uk()).unwrap();
    assert_eq!(answer.route_length, 10_000);
    assert_eq!(answer.direct_length, 10_000);
    // 100 m at 1.34112 m/s
    assert_eq!(answer.active_duration, 74_564);
    assert_eq!(answer.active_duration_s(), 74);
    assert_eq!(answer.waiting_duration, 0);
    assert_eq!(answer.waiting_duration_s(), 0);
    assert_eq!(map.graph.roads[0].walking.cost, 74_564);
    assert_eq!(map.graph.roads[0].cross_anywhere.cost, 74_564);
}

#[test]
fn routing_twice_changes_no_cost() {
    let mut map = model(&t_junction(true));
    let f = map.mercator;
    let settings = Settings::uk();
    let _ = do_route(&mut map, at(f, 50_000, 100_000), at(f, 50_000, 0), settings);
    let costs: Vec<(u64, u64)> =
        map.graph.roads.iter().map(|r| (r.walking.cost, r.cross_anywhere.cost)).collect();
    let _ = do_route(&mut map, at(f, 50_000, 100_000), at(f, 50_000, 0), settings);
    let again: Vec<(u64, u64)> =
        map.graph.roads.iter().map(|r| (r.walking.cost, r.cross_anywhere.cost)).collect();
    assert_eq!(costs, again);
    assert_eq!(map.walking_settings, settings);
}

#[test]
fn a_faster_walker_pays_less_for_walking_only() {
    let elements = vec![
        node(1, 0, 0),
        node(2, 10_000, 0),
        node(3, 11_000, 0),
        way(10, &[1, 2], &["highway=residential"]),
        way(11, &[2, 3], &["highway=footway", "footway=crossing", "crossing=traffic_signals"]),
    ];
    let mut map = model(&elements);
    assert_eq!(map.graph.roads[1].kind, RoadKind::Crossing(CrossingKind::Signalized));
    assert_eq!(map.graph.roads[0].walking.cost, 74_564);
    assert_eq!(map.graph.roads[1].walking.cost, 7_456 + 30_000);
    let twice = Settings { base_speed_mph: 6000, ..Settings::uk() };
    let walker = map.prepare_profile(twice);
    assert_eq!(walker, Walker::Walking);
    assert_eq!(map.graph.roads[0].walking.cost, 37_282);
    assert_eq!(map.graph.roads[1].walking.cost, 3_728 + 30_000);
    // the other walker's costs stay
    assert_eq!(map.graph.roads[0].cross_anywhere.cost, 74_564);
    map.update_costs(Settings { obey_crossings: false, base_speed_mph: 1500, ..Settings::uk() });
    assert_eq!(map.graph.roads[0].cross_anywhere.cost, 149_129);
    assert_eq!(map.graph.roads[0].walking.cost, 37_282);
    assert_eq!(map.walking_settings, twice);
    assert_eq!(map.cross_anywhere_settings.base_speed_mph, 1500);
}

#[test]
fn a_signalized_crossing_makes_the_walker_wait() {
    let elements = vec![
        node(1, 0, 0),
        node(2, 10_000, 0),
        node(3, 11_000, 0),
        node(4, 21_000, 0),
        way(10, &[1, 2], &["highway=residential"]),
        way(11, &[2, 3], &["highway=footway", "footway=crossing", "crossing=traffic_signals"]),
        way(12, &[3, 4], &["highway=residential"]),
    ];
    let mut map = model(&elements);
    let f = map.mercator;
    let answer = do_route(&mut map, at(f, 0, 0), at(f, 21_000, 0), Settings::uk()).unwrap();
    assert_eq!(answer.steps.len(), 3);
    assert!(answer.waiting_duration_s() >= 30);
    assert_eq!(answer.waiting_duration, 30_000);
    assert_eq!(answer.active_duration, 74_564 + 7_456 + 74_564);
    assert_eq!(answer.route_length, 21_000);
    // other kinds of crossing
    let zebra = Settings { delay_zebra: 5_000, delay_signalized: 0, ..Settings::uk() };
    let answer = do_route(&mut map, at(f, 0, 0), at(f, 21_000, 0), zebra).unwrap();
    assert_eq!(answer.waiting_duration, 0);
}

#[test]
fn a_route_from_the_middle_of_a_road() {
    let mut map = model(&straight_road(&["highway=residential"]));
    let f = map.mercator;
    // from a quarter of the road to its end: three quarters of the walking time
    let answer = do_route(&mut map, at(f, 2_500, 300), at(f, 10_000, 0), Settings::uk()).unwrap();
    assert_eq!(answer.start.fraction_along, 250_000);
    assert_eq!(answer.start.intersection, IntersectionID(0));
    assert_eq!(answer.end.fraction_along, 1_000_000);
    assert_eq!(answer.steps, vec![PathStep { road: RoadID(0), forwards: true }]);
    assert_eq!(answer.active_duration, 55_923);
    // both places in the same half of the road
    assert_eq!(
        do_route(&mut map, at(f, 2_500, 0), at(f, 4_000, 0), Settings::uk()).err(),
        Some(Error::DegenerateInput)
    );
}

#[test]
fn compare_route_takes_geographic_places() {
    let mut map = model(&straight_road(&["highway=residential"]));
    let request =
        CompareRouteRequest { x1: 0, y1: 0, x2: 10_000, y2: 0, settings: Settings::uk() };
    let answer = map.compare_route(request).unwrap();
    assert_eq!(answer.route_length, 10_000);
    assert_eq!(answer.start.intersection, IntersectionID(0));
    assert_eq!(answer.end.intersection, IntersectionID(1));
    assert_eq!(answer.start.fraction_along, 0);
    assert_eq!(answer.end.fraction_along, 1_000_000);
}

#[test]
fn routing_fails_in_every_way() {
    // two roads that do not hang together
    let elements = vec![
        node(1, 0, 0),
        node(2, 10_000, 0),
        node(3, 20_000, 0),
        node(4, 30_000, 0),
        way(10, &[1, 2], &["highway=residential"]),
        way(11, &[3, 4], &["highway=residential"]),
    ];
    let mut map = model(&elements);
    let f = map.mercator;
    assert_eq!(
        do_route(&mut map, at(f, 0, 0), at(f, 30_000, 0), Settings::uk()).err(),
        Some(Error::NoPath)
    );
    // both places land at one intersection
    assert_eq!(
        do_route(&mut map, at(f, 0, 0), at(f, 100, 100), Settings::uk()).err(),
        Some(Error::DegenerateInput)
    );
    // nothing but a severance: no road to take for a walker who obeys crossings
    let mut map = model(&straight_road(&["highway=primary"]));
    let f = map.mercator;
    assert_eq!(
        do_route(&mut map, at(f, 0, 0), at(f, 10_000, 0), Settings::uk()).err(),
        Some(Error::NotSnappable)
    );
    let anywhere = Settings { obey_crossings: false, ..Settings::uk() };
    assert!(do_route(&mut map, at(f, 0, 0), at(f, 10_000, 0), anywhere).is_ok());
    // names of profiles
    assert_eq!(Walker::from_name("walking"), Ok(Walker::Walking));
    assert_eq!(Walker::from_name("cross_anywhere"), Ok(Walker::CrossAnywhere));
    assert_eq!(Walker::from_name("cycling"), Err(Error::UnknownProfile));
    assert_eq!(Walker::Walking.name(), "walking");
    assert_eq!(Walker::CrossAnywhere.name(), "cross_anywhere");
}

#[test]
fn the_cheaper_way_round_is_taken() {
    // a square; from one corner to the next the direct side is a slow crossing
    let elements = vec![
        node(1, 0, 0),
        node(2, 1_000, 0),
        node(3, 1_000, 1_000),
        node(4, 0, 1_000),
        way(10, &[1, 2], &["highway=footway", "footway=crossing", "crossing=traffic_signals"]),
        way(11, &[2, 3], &["highway=footway"]),
        way(12, &[3, 4], &["highway=footway"]),
        way(13, &[4, 1], &["highway=footway"]),
    ];
    let mut map = model(&elements);
    let f = map.mercator;
    let answer = do_route(&mut map, at(f, 0, 0), at(f, 1_000, 0), Settings::uk()).unwrap();
    // three sides of ten metres beat one side with half a minute of waiting
    assert_eq!(
        answer.steps,
        vec![
            PathStep { road: RoadID(3), forwards: false },
            PathStep { road: RoadID(2), forwards: false },
            PathStep { road: RoadID(1), forwards: false },
        ]
    );
    assert_eq!(answer.route_length, 3_000);
    assert_eq!(answer.direct_length, 1_000);
    assert_eq!(answer.waiting_duration, 0);
    // without the wait the direct side wins
    let patient = Settings { delay_signalized: 0, ..Settings::uk() };
    let answer = do_route(&mut map, at(f, 0, 0), at(f, 1_000, 0), patient).unwrap();
    assert_eq!(answer.steps, vec![PathStep { road: RoadID(0), forwards: true }]);
    let found = route(&map.graph, Walker::Walking, IntersectionID(0), IntersectionID(1)).unwrap();
    assert_eq!(found.cost, 7_456);
    assert_eq!(
        route(&map.graph, Walker::Walking, IntersectionID(0), IntersectionID(0)).err(),
        Some(Error::DegenerateInput)
    );
    assert_eq!(
        route(&map.graph, Walker::Walking, IntersectionID(0), IntersectionID(99)).err(),
        Some(Error::NoPath)
    );
}

#[test]
fn snapping_finds_the_nearest_road() {
    let map = model(&t_junction(true));
    let f = map.mercator;
    let p = snap_to_road(&map.graph, Walker::Walking, at(f, 49_000, 90_000)).unwrap();
    assert_eq!(map.graph.intersections[p.intersection.0].node, NodeID(4));
    assert_eq!(p.road, RoadID(2));
    assert_eq!(p.fraction_along, 800_000);
    // in the first half of the road the source is the nearer end
    let p = snap_to_road(&map.graph, Walker::Walking, at(f, 52_000, 70_000)).unwrap();
    assert_eq!(p.road, RoadID(2));
    assert_eq!(p.fraction_along, 400_000);
    assert_eq!(map.graph.intersections[p.intersection.0].node, NodeID(2));
    // nearer to the crossing than to either residential road
    let p = snap_to_road(&map.graph, Walker::Walking, at(f, 58_000, 57_000)).unwrap();
    assert_eq!(p.road, RoadID(4));
    // the ends of the primary road are no place to land for a walker who obeys crossings
    let p = snap_to_road(&map.graph, Walker::Walking, at(f, 0, 50_000)).unwrap();
    assert_eq!(map.graph.intersections[p.intersection.0].node, NodeID(2));
    let p = snap_to_road(&map.graph, Walker::CrossAnywhere, at(f, 0, 50_000)).unwrap();
    assert_eq!(map.graph.intersections[p.intersection.0].node, NodeID(1));
    assert_eq!(p.road, RoadID(0));
    assert_eq!(p.fraction_along, 0);
}

fn long_street() -> Vec<Element> {
    let mut elements = Vec::new();
    for k in 0..11 {
        elements.push(node(k + 1, (k as i32) * 10_000, 5_000));
    }
    for k in 0..10 {
        elements.push(way(100 + k, &[k + 1, k + 2], &["highway=residential"]));
    }
    elements
}

#[test]
fn isochrone_stops_at_402_metres() {
    let mut map = model(&long_street());
    let f = map.mercator;
    let iso = map
        .calculate_isochrone(at(f, 0, 0), Style::Roads, 5, Settings::uk(), None)
        .unwrap();
    let reached: Vec<(Shape, u64)> = iso.features.iter().map(|f| (f.shape, f.cost1)).collect();
    assert_eq!(
        reached,
        vec![
            (Shape::Road(RoadID(0)), 0),
            (Shape::Road(RoadID(1)), 74),
            (Shape::Road(RoadID(2)), 149),
            (Shape::Road(RoadID(3)), 223),
            (Shape::Road(RoadID(4)), 298),
        ]
    );
    assert!(iso.features.iter().all(|f| f.cost2.is_none()));
    // every road that is reached starts within 402 m of the start
    for f in &iso.features {
        if let Shape::Road(r) = f.shape {
            let road = &map.graph.roads[r.0];
            assert!(road.linestring[0].x <= 40_234);
        }
    }
    assert_eq!(iso.costs1.reach.cost[4], Some(298_256));
    assert_eq!(iso.costs1.reach.cost[5], None);
    assert_eq!(iso.costs1.reach.path[4].len(), 4);
}

#[test]
fn isochrone_with_second_settings() {
    let mut map = model(&long_street());
    let f = map.mercator;
    let fast = Settings { obey_crossings: false, base_speed_mph: 6000, ..Settings::uk() };
    let iso = map
        .calculate_isochrone(at(f, 0, 0), Style::Roads, 2, Settings::uk(), Some(fast))
        .unwrap();
    let reached: Vec<(u64, Option<u64>)> = iso.features.iter().map(|f| (f.cost1, f.cost2)).collect();
    assert_eq!(reached, vec![(0, Some(0)), (74, Some(37))]);
    assert_eq!(iso.second.unwrap().1.roads[3], Some(111_846));
}

#[test]
fn isochrone_as_grid_and_buildings() {
    let mut elements = long_street();
    // a building at the second road and one at the ninth
    elements.push(node(50, 12_000, 500));
    elements.push(node(51, 13_000, 500));
    elements.push(node(52, 13_000, 1_500));
    elements.push(way(200, &[50, 51, 52], &["building=yes"]));
    elements.push(node(53, 88_000, 500));
    elements.push(node(54, 89_000, 500));
    elements.push(way(201, &[53, 54, 53], &["building=yes"]));
    let mut map = model(&elements);
    let f = map.mercator;
    assert_eq!(map.buildings_per_road.len(), 10);
    let housed: Vec<usize> = map.buildings_per_road.iter().map(|b| b.len()).collect();
    assert_eq!(housed.iter().sum::<usize>(), 2);
    // the outline of the first building is closed
    let first = map.buildings_per_road.iter().flatten().next().unwrap();
    assert_eq!(first.len(), 4);
    assert_eq!(first[0], first[3]);
    let iso = map
        .calculate_isochrone(at(f, 0, 0), Style::Dasymetric, 5, Settings::uk(), None)
        .unwrap();
    assert_eq!(iso.features.len(), 1);
    assert_eq!(iso.features[0].shape, Shape::Building(RoadID(1), 0));
    assert_eq!(iso.features[0].cost1, 74);
    let iso = map
        .calculate_isochrone(at(f, 0, 0), Style::Dasymetric, 10, Settings::uk(), None)
        .unwrap();
    assert_eq!(iso.features.len(), 2);
    assert_eq!(iso.features[1].shape, Shape::Building(RoadID(8), 0));
    assert_eq!(iso.features[1].cost1, 596);
    // with a road that runs north from the end of the street the frame is 950 m high
    elements.push(node(60, 100_000, 100_000));
    elements.push(way(300, &[11, 60], &["highway=residential"]));
    let mut map = model(&elements);
    let f = map.mercator;
    assert_eq!((f.width, f.height), (100_000, 95_000));
    let iso = map.calculate_isochrone(at(f, 0, 0), Style::Grid, 5, Settings::uk(), None).unwrap();
    // the street runs along the lower edge of the frame: squares of 100 m in the last row
    let cells: Vec<(Shape, u64)> = iso.features.iter().map(|f| (f.shape, f.cost1)).collect();
    assert_eq!(
        cells,
        vec![
            (Shape::Cell(0, 9), 0),
            (Shape::Cell(1, 9), 0),
            (Shape::Cell(2, 9), 0),
            (Shape::Cell(3, 9), 180),
            (Shape::Cell(4, 9), 180),
            // the last road that is reached ends in the next square
            (Shape::Cell(5, 9), 180),
        ]
    );
    let iso = map.calculate_isochrone(at(f, 0, 0), Style::Contours, 5, Settings::uk(), None).unwrap();
    assert_eq!(iso.features.len(), 0);
}

#[test]
fn isochrone_needs_a_road_to_start_from() {
    let mut map = model(&straight_road(&["highway=primary"]));
    let f = map.mercator;
    assert_eq!(
        map.calculate_isochrone(at(f, 0, 0), Style::Roads, 5, Settings::uk(), None).err(),
        Some(Error::NotSnappable)
    );
}

#[test]
fn search_and_costs_on_a_graph() {
    let map = model(&long_street());
    let reach = search(&map.graph, Walker::Walking, &vec![IntersectionID(10)], 100_000);
    assert_eq!(reach.cost[10], Some(0));
    assert_eq!(reach.cost[9], Some(74_564));
    assert_eq!(reach.cost[8], None);
    assert_eq!(reach.path[9], vec![PathStep { road: RoadID(9), forwards: false }]);
    let costs =
        get_costs(&map.graph, Walker::Walking, &vec![IntersectionID(0), IntersectionID(10)], 80_000);
    assert_eq!(costs.roads[0], Some(0));
    assert_eq!(costs.roads[1], Some(74_564));
    assert_eq!(costs.roads[2], None);
    assert_eq!(costs.roads[8], Some(74_564));
    assert_eq!(costs.roads[9], Some(0));
}

#[test]
fn two_loops_are_two_islands() {
    let elements = vec![
        // a square of four roads
        node(1, 0, 0),
        node(2, 1_000, 0),
        node(3, 1_000, 1_000),
        node(4, 0, 1_000),
        way(10, &[1, 2], &["highway=residential"]),
        way(11, &[2, 3], &["highway=residential"]),
        way(12, &[3, 4], &["highway=residential"]),
        way(13, &[4, 1], &["highway=residential"]),
        // a triangle of three roads
        node(5, 5_000, 0),
        node(6, 6_000, 0),
        node(7, 6_000, 1_000),
        way(14, &[5, 6], &["highway=residential"]),
        way(15, &[6, 7], &["highway=residential"]),
        way(16, &[7, 5], &["highway=residential"]),
        // a severance alone
        node(8, 9_000, 0),
        node(9, 9_500, 0),
        way(17, &[8, 9], &["highway=primary"]),
    ];
    let map = model(&elements);
    let found = find_connected_components(&map);
    assert_eq!(found.component_sizes, vec![4, 3]);
    assert_eq!(found.island.len(), 8);
    assert_eq!(found.island[7], None);
    let square = found.island[0].unwrap();
    let triangle = found.island[4].unwrap();
    assert_ne!(square, triangle);
    assert_eq!(found.island[..4], [Some(square); 4]);
    assert_eq!(found.island[4..7], [Some(triangle); 3]);
    assert_eq!(found.sizes[square], 4);
    assert_eq!(found.sizes[triangle], 3);
    assert_eq!(map.find_connected_components().component_sizes, vec![4, 3]);
}

fn severance_with_crossings() -> Vec<Element> {
    vec![
        node(1, 0, 0),
        tagged_node(2, 10_000, 0, &["highway=crossing"]),
        tagged_node(3, 25_000, 0, &["highway=crossing", "crossing=traffic_signals"]),
        tagged_node(4, 40_000, 0, &["highway=traffic_signals", "crossing=traffic_signals"]),
        node(5, 50_000, 0),
        // a crossing that lies on no severance, and a node that is no crossing
        tagged_node(6, 70_000, 0, &["highway=crossing"]),
        tagged_node(7, 80_000, 0, &["crossing=marked"]),
        way(10, &[1, 2, 3, 4, 5], &["highway=primary"]),
        way(11, &[6, 7], &["highway=residential"]),
    ]
}

#[test]
fn crossings_are_tied_to_severances() {
    let map = model(&severance_with_crossings());
    let f = map.mercator;
    assert_eq!(map.crossings.len(), 3);
    let nodes: Vec<NodeID> = map.crossings.iter().map(|c| c.osm_id).collect();
    assert_eq!(nodes, vec![NodeID(2), NodeID(3), NodeID(4)]);
    for c in &map.crossings {
        assert_eq!(c.roads, vec![RoadID(0)]);
        assert_eq!(map.graph.roads[c.roads[0].0].kind, RoadKind::Severance);
    }
    assert_eq!(map.crossings[0].kind, CrossingKind::Other);
    assert_eq!(map.crossings[1].kind, CrossingKind::Signalized);
    assert_eq!(map.crossings[0].point, at(f, 10_000, 0));
    let shown = map.get_crossings();
    assert_eq!(shown.len(), 3);
    assert_eq!(shown[0].point, Pt { x: 10_000, y: 0 });
    assert_eq!(shown[0].osm_id, NodeID(2));
    assert!(shown[1].tags.is("crossing", "traffic_signals"));
}

#[test]
fn a_severance_is_cut_at_its_crossings() {
    let map = model(&severance_with_crossings());
    let f = map.mercator;
    let kinds = vec!["unknown".to_string(), "traffic_signals".to_string()];
    let found = get_crossing_distances(&map, &kinds);
    assert_eq!(found.joined.len(), 1);
    let lengths: Vec<u64> = found.segments.iter().map(|s| s.length).collect();
    assert_eq!(lengths, vec![10_000, 15_000, 15_000, 10_000]);
    assert_eq!(lengths.iter().sum::<u64>(), 50_000);
    assert_eq!(found.segments[1].linestring, vec![at(f, 10_000, 0), at(f, 25_000, 0)]);
    // only the crossings with signals
    let found = map.get_crossing_distances(vec!["traffic_signals".to_string()]);
    let lengths: Vec<u64> = found.segments.iter().map(|s| s.length).collect();
    assert_eq!(lengths, vec![25_000, 15_000, 10_000]);
    // no crossings at all: the severance stays in one piece
    let found = get_crossing_distances(&map, &vec![]);
    let lengths: Vec<u64> = found.segments.iter().map(|s| s.length).collect();
    assert_eq!(lengths, vec![50_000]);
}

#[test]
fn severances_are_joined_before_they_are_cut() {
    let elements = vec![
        node(1, 0, 0),
        node(2, 10_000, 0),
        tagged_node(3, 20_000, 0, &["highway=crossing"]),
        node(4, 30_000, 0),
        node(5, 10_000, 5_000),
        way(10, &[1, 2], &["highway=primary"]),
        way(11, &[4, 3, 2], &["highway=primary"]),
        way(12, &[2, 5], &["highway=footway"]),
    ];
    let map = model(&elements);
    let found = get_crossing_distances(&map, &vec!["unknown".to_string()]);
    assert_eq!(found.joined.len(), 1);
    assert_eq!(found.joined[0].ids, vec![(RoadID(0), true), (RoadID(1), false)]);
    let lengths: Vec<u64> = found.segments.iter().map(|s| s.length).collect();
    assert_eq!(lengths, vec![20_000, 10_000]);
}

#[test]
fn detours_round_a_severance() {
    let elements = vec![
        node(1, 0, 50_000),
        node(2, 10_000, 50_000),
        way(10, &[1, 2], &["highway=primary"]),
        node(3, 0, 51_500),
        node(4, 10_000, 51_500),
        way(11, &[3, 4], &["highway=footway"]),
        node(5, 0, 48_500),
        node(6, 10_000, 48_500),
        way(12, &[5, 6], &["highway=footway"]),
        way(13, &[3, 5], &["highway=footway"]),
    ];
    let mut map = model(&elements);
    let found = calculate(&mut map, Settings::uk());
    assert_eq!(found.samples.len(), 4);
    let requests: Vec<usize> = found.samples.iter().map(|s| s.request).collect();
    assert_eq!(requests, vec![0, 1, 2, 3]);
    // at the connecting footway the way round is the straight way
    assert_eq!(found.samples[0].route.route_length, 3_000);
    assert_eq!(found.samples[0].route.direct_length, 3_000);
    assert_eq!(found.samples[0].score, Some(1000));
    assert_eq!(found.samples[1].score, Some(1000));
    // at the far end one has to walk there and back
    assert_eq!(found.samples[3].route.route_length, 23_000);
    assert_eq!(found.samples[3].score, Some(7666));
    assert_eq!(found.max_score, 7666);
    let again = map.score_detours();
    assert_eq!(again.max_score, 7666);
}

#[test]
fn footways_beside_a_road_are_found() {
    let elements = vec![
        node(1, 0, 50_000),
        node(2, 10_000, 50_000),
        way(10, &[1, 2], &["highway=residential", "sidewalk=both"]),
        node(3, 0, 51_000),
        node(4, 10_000, 51_000),
        way(11, &[3, 4], &["highway=footway"]),
        node(5, 0, 80_000),
        node(6, 10_000, 80_000),
        way(12, &[5, 6], &["highway=residential"]),
        node(7, 0, 60_000),
        node(8, 10_000, 60_000),
        way(13, &[7, 8], &["highway=residential", "sidewalk=separate"]),
    ];
    let map = model_for(&elements, Profile::USA);
    assert_eq!(find_separate_sidewalks(&map, false), vec![RoadID(0)]);
    assert_eq!(find_separate_sidewalks(&map, true), vec![RoadID(0)]);
    // without the sidewalk tag the road counts only where all roads are looked at
    let mut elements = elements;
    elements[2] = way(10, &[1, 2], &["highway=residential"]);
    let map = model_for(&elements, Profile::USA);
    assert_eq!(find_separate_sidewalks(&map, false), vec![RoadID(0)]);
    assert_eq!(find_separate_sidewalks(&map, true), vec![]);
}

#[test]
fn footways_are_found_by_their_rectangles() {
    let elements = vec![
        node(1, 0, 0),
        node(2, 10_000, 10_000),
        way(10, &[1, 2], &["highway=footway"]),
        node(3, 50_000, 50_000),
        node(4, 60_000, 50_000),
        way(11, &[3, 4], &["highway=footway"]),
        node(5, 0, 90_000),
        node(6, 90_000, 90_000),
        way(12, &[5, 6], &["highway=residential"]),
    ];
    let g = build_graph(&elements, Profile::USA).unwrap();
    let footways = Footways::new(&g);
    let line = |x1, y1, x2, y2| Line { start: Pt { x: x1, y: y1 }, end: Pt { x: x2, y: y2 } };
    // across the first footway
    assert!(footways.meet(&g, line(0, 10_000, 10_000, 0)));
    // within its rectangle, but beside the footway itself
    assert!(!footways.meet(&g, line(0, 1_000, 8_000, 9_000)));
    // touching the end of the second footway
    assert!(footways.meet(&g, line(60_000, 40_000, 60_000, 50_000)));
    // across the residential road, which is no footway
    assert!(!footways.meet(&g, line(40_000, 80_000, 40_000, 95_000)));
    // far from everything
    assert!(!footways.meet(&g, line(80_000, 10_000, 90_000, 20_000)));
    assert_eq!(
        envelope(&vec![Pt { x: 3, y: 9 }, Pt { x: -1, y: 4 }, Pt { x: 2, y: 12 }]),
        (Pt { x: -1, y: 4 }, Pt { x: 3, y: 12 })
    );
}

#[test]
fn lines_are_laid_across_severances_only() {
    let map = model(&t_junction(true));
    let f = map.mercator;
    let lines = along_severances(&map.graph);
    // two severances of 500 m, a line every 25 m
    assert_eq!(lines.len(), 40);
    assert_eq!(lines[0], Line { start: at(f, 0, 51_500), end: at(f, 0, 48_500) });
    assert_eq!(lines[20], Line { start: at(f, 50_000, 51_500), end: at(f, 50_000, 48_500) });
}

#[test]
fn segments_that_meet() {
    let p = |x, y| Pt { x, y };
    assert!(intersects(p(0, 0), p(10, 10), p(0, 10), p(10, 0)));
    assert!(!intersects(p(0, 0), p(10, 10), p(20, 0), p(30, 10)));
    assert!(intersects(p(0, 0), p(10, 0), p(5, 0), p(5, 5)));
    assert!(intersects(p(0, 0), p(10, 0), p(10, 0), p(20, 0)));
    assert!(!intersects(p(0, 0), p(10, 0), p(11, 0), p(20, 0)));
    assert!(!intersects(p(0, 0), p(10, 0), p(0, 1), p(10, 1)));
    assert!(intersects(p(0, 0), p(10, 0), p(3, 0), p(7, 0)));
    assert!(!intersects(p(0, 0), p(10, 10), p(11, 11), p(20, 20)));
    assert!(intersects(p(-5, -5), p(5, 5), p(0, 0), p(0, 0)));
}

#[test]
fn the_graph_is_carried_into_the_frame() {
    let mut g = build_graph(&t_junction(true), Profile::SidewalksOnHighways).unwrap();
    let half = Mercator::new(Pt { x: 0, y: 0 }, Pt { x: 100_000, y: 100_000 }, 50_000, 20_000)
        .unwrap();
    project(&mut g, &half);
    check_consistent(&g);
    assert_eq!(g.roads[0].linestring, vec![Pt { x: 0, y: 10_000 }, Pt { x: 25_000, y: 10_000 }]);
    assert_eq!(g.intersections[0].point, Pt { x: 0, y: 10_000 });
}

#[test]
fn a_model_that_is_tampered_with_is_not_consistent() {
    let mut map = model(&t_junction(true));
    assert!(map.is_consistent());
    assert!(map.graph.is_consistent());
    map.graph.roads[2].walking.cost += 1;
    assert!(!map.is_consistent());
    assert!(map.graph.is_consistent());
    map.graph.roads[2].walking.cost -= 1;
    assert!(map.is_consistent());
    map.graph.roads[2].src_i = IntersectionID(0);
    assert!(!map.graph.is_consistent());
    assert!(!map.is_consistent());
    let mut map = model(&t_junction(true));
    map.gradients.pop();
    assert!(!map.is_consistent());
    let mut map = model(&severance_with_crossings());
    assert!(map.is_consistent());
    map.crossings[0].roads = vec![RoadID(1)];
    assert!(!map.is_consistent());
    // a severance that is opened to the walker who obeys crossings
    let mut map = model(&severance_with_crossings());
    assert_eq!(map.graph.roads[0].kind, RoadKind::Severance);
    assert_eq!(map.graph.roads[0].walking.access, Direction::Neither);
    map.graph.roads[0].walking = map.graph.roads[0].cross_anywhere;
    assert!(!map.is_consistent());
    let mut map = model(&severance_with_crossings());
    map.crossings[0].roads = vec![];
    assert!(!map.is_consistent());
    let mut map = model(&t_junction(true));
    map.graph.intersections[0].roads.push(RoadID(0));
    assert!(!map.graph.is_consistent());
    let mut map = model(&t_junction(true));
    map.graph.roads[0].linestring[0].x += 1;
    assert!(!map.graph.is_consistent());
    let mut map = model(&t_junction(true));
    map.walking_settings.base_speed_mph = 0;
    assert!(!map.is_consistent());
}

#[test]
fn the_model_is_shown() {
    let mut map = model(&t_junction(true));
    let roads = map.render();
    assert_eq!(roads.len(), 5);
    assert_eq!(roads[0].kind, RoadKind::Severance);
    assert_eq!(roads[0].way, WayID(10));
    assert_eq!(roads[0].gradient, 0);
    assert_eq!(roads[0].linestring, vec![Pt { x: 0, y: 50_000 }, Pt { x: 50_000, y: 50_000 }]);
    assert_eq!(map.get_bounds(), vec![0, 0, 100_000, 100_000]);
    assert_eq!(map.get_graph().roads.len(), 5);
    map.set_gradients(vec![100, 0, -250, 0, 0]);
    assert_eq!(map.render()[2].gradient, -250);
}

#[test]
fn gradients_from_heights() {
    // one metre up over a hundred metres is one percent
    assert_eq!(gradient(0, 100, 10_000), 100);
    assert_eq!(gradient(100, 0, 10_000), -100);
    assert_eq!(gradient(0, 1, 3), 3333);
    assert_eq!(gradient(0, -1, 3), -3333);
    assert_eq!(gradient(5, 5, 10), 0);
    assert_eq!(gradient(0, 100, 0), 0);
    assert_eq!(gradient(i32::MIN, i32::MAX, 1), i32::MAX);
    let map = model(&t_junction(true));
    let heights = vec![(0, 100), (0, 0), (0, -500), (0, 0), (10, 10)];
    assert_eq!(read_gradients(&map.graph, &heights), Some(vec![20, 0, -100, 0, 0]));
    assert_eq!(read_gradients(&map.graph, &vec![(0, 0)]), None);
}

#[test]
fn profiles_of_the_two_walkers() {
    let line = vec![Pt { x: 0, y: 0 }, Pt { x: 10_000, y: 0 }];
    let profile = Profile::SidewalksOnHighways;
    let road = tags(&["highway=residential"]);
    assert_eq!(walking_profile(profile, &road, &line).access, Direction::Both);
    assert_eq!(walking_profile(profile, &road, &line).cost, 74_564);
    assert_eq!(cross_anywhere(profile, &road, &line).cost, 74_564);
    let severance = tags(&["highway=trunk"]);
    assert_eq!(walking_profile(profile, &severance, &line).access, Direction::Neither);
    assert_eq!(walking_profile(profile, &severance, &line).cost, 0);
    assert_eq!(cross_anywhere(profile, &severance, &line).access, Direction::Both);
    let none = tags(&["building=yes"]);
    assert_eq!(walking_profile(profile, &none, &line).access, Direction::Neither);
    assert_eq!(cross_anywhere(profile, &none, &line).access, Direction::Neither);
    let crossing = tags(&["highway=footway", "footway=crossing", "crossing=marked"]);
    assert_eq!(walking_profile(profile, &crossing, &line).cost, 74_564 + 10_000);
}

#[test]
fn an_extract_is_scraped_into_a_graph() {
    let text = r#"<?xml version="1.0"?>
<osm>
  <node id="1" lat="0" lon="0"/>
  <node id="2" lat="0" lon="0.001"/>
  <node id="3" lat="0.001" lon="0.001"/>
  <way id="10"><nd ref="1"/><nd ref="2"/><tag k="highway" v="residential"/></way>
  <way id="11"><nd ref="2"/><nd ref="3"/><tag k="highway" v="footway"/></way>
  <way id="12"><nd ref="1"/><nd ref="3"/><tag k="building" v="yes"/></way>
</osm>"#;
    let g = scrape_osm(text.as_bytes(), None, Profile::USA).unwrap();
    check_consistent(&g);
    assert_eq!(g.roads.len(), 2);
    assert_eq!(g.intersections.len(), 3);
    assert_eq!(g.roads[0].linestring, vec![Pt { x: 0, y: 0 }, Pt { x: 10_000, y: 0 }]);
    assert_eq!(g.roads[1].kind, RoadKind::Footway);
    assert_eq!(scrape_osm(b"<?xml nonsense", None, Profile::USA).err(), Some(Error::InputMalformed));
    let map = MapModel::new(text.as_bytes(), None, Profile::USA, 10_000, 10_000).unwrap();
    assert!(map.is_consistent());
    assert_eq!(map.graph.roads.len(), 2);
    assert_eq!(map.graph.roads[0].linestring, vec![Pt { x: 0, y: 10_000 }, Pt { x: 10_000, y: 10_000 }]);
    assert_eq!(map.graph.roads[0].walking.cost, 74_564);
    assert_eq!(MapModel::new(b"<osm/>", None, Profile::USA, 10, 10).err(), Some(Error::InputMalformed));
    assert_eq!(
        MapModel::new(b"<?xml version=\"1.0\"?><osm/>", None, Profile::USA, 10, 10).err(),
        Some(Error::EmptyArea)
    );
    assert_eq!(scrape_osm(&[1, 2, 3, 4, 5, 6, 7, 8], None, Profile::USA).err(), Some(Error::InputMalformed));
}

#[test]
fn the_frame_lies_over_the_roads() {
    // a building lies outside the bounds of the roads
    let mut elements = t_junction(true);
    elements.push(node(90, -40_000, 300_000));
    elements.push(node(91, -30_000, 300_000));
    elements.push(node(92, -30_000, 310_000));
    elements.push(way(900, &[90, 91, 92], &["building=yes"]));
    let g = build_graph(&elements, Profile::SidewalksOnHighways).unwrap();
    let mut lo = g.roads[0].linestring[0];
    let mut hi = lo;
    for road in &g.roads {
        for pt in &road.linestring {
            lo = Pt { x: lo.x.min(pt.x), y: lo.y.min(pt.y) };
            hi = Pt { x: hi.x.max(pt.x), y: hi.y.max(pt.y) };
        }
    }
    let frame = frame_around(&g, 7, 9).unwrap();
    assert_eq!((frame.min_lon, frame.min_lat, frame.max_lon, frame.max_lat), (lo.x, lo.y, hi.x, hi.y));
    assert_eq!((frame.width, frame.height), (7, 9));
    let map = MapModel::create(&elements, Profile::SidewalksOnHighways, 2_000, 1_000).unwrap();
    assert_eq!(map.mercator, Mercator::new(lo, hi, 2_000, 1_000).unwrap());
    // every point of every road lies in the frame
    for road in &map.graph.roads {
        for pt in &road.linestring {
            assert!(0 <= pt.x && pt.x <= 2_000 && 0 <= pt.y && pt.y <= 1_000);
        }
    }
    assert!(frame_around(&Graph::empty(), 1, 1).is_none());
}

#[test]
fn every_island_has_a_road() {
    let map = model(&t_junction(true));
    let found = find_connected_components(&map);
    assert!(!found.sizes.contains(&0));
    assert!(!found.component_sizes.contains(&0));
    for k in 0..found.sizes.len() {
        assert!(found.island.contains(&Some(k)));
    }
    assert_eq!(found.sizes.iter().sum::<usize>(), found.island.iter().flatten().count());
}
