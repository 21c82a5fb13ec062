use severance::geometry::{integer_sqrt, polyline_length, segment_len, squared_distance, Pt};
use severance::isochrone::{densify, draw_buildings, draw_roads, raster, render_grid, Feature, Grid, Shape};
use severance::join_lines::{
    collapse_degree_2, flip_direction, join_lines, replace, HashedPoint, KeyedLineString,
};
use severance::mercator::{bounding_box, Mercator};
use severance::route::{covered, position, Position};
use severance::router::{locate_fraction, snap_to_line, snap_to_segment};
use severance::model::Crossing;
use severance::osm::NodeID;
use severance::scores::{
    detour_score, find_nearest, make_perpendicular_offsets, mark_cuts, mark_place, measure_arcs,
    project_away, split_by_crossings, Line,
};
use severance::tags::Tags;
use severance::settings::{cost, mph_to_mps, road_cost, Settings};
use severance::profiles::{CrossingKind, RoadKind};
use severance::disconnected::sort_descending;
use severance::graph::RoadID;

fn p(x: i32, y: i32) -> Pt {
    Pt { x, y }
}

fn line(pts: &[(i32, i32)], id: u32, key: u64) -> KeyedLineString<u32> {
    KeyedLineString {
        linestring: pts.iter().map(|(x, y)| p(*x, *y)).collect(),
        ids: vec![(id, true)],
        key,
    }
}

fn shape(l: &KeyedLineString<u32>) -> (Vec<Pt>, Vec<(u32, bool)>, u64) {
    (l.linestring.clone(), l.ids.clone(), l.key)
}

#[test]
fn integer_square_roots() {
    assert_eq!(integer_sqrt(0), 0);
    assert_eq!(integer_sqrt(1), 1);
    assert_eq!(integer_sqrt(2), 1);
    assert_eq!(integer_sqrt(3), 1);
    assert_eq!(integer_sqrt(4), 2);
    assert_eq!(integer_sqrt(99), 9);
    assert_eq!(integer_sqrt(100), 10);
    assert_eq!(integer_sqrt(1 << 64), 1 << 32);
    assert_eq!(integer_sqrt((1 << 64) - 1), (1 << 32) - 1);
    assert_eq!(integer_sqrt((1u128 << 66) - 1), (1 << 33) - 1);
    assert_eq!(integer_sqrt(u128::MAX), u64::MAX);
}

#[test]
fn lengths_of_lines() {
    assert_eq!(squared_distance(p(0, 0), p(3, 4)), 25);
    assert_eq!(segment_len(p(0, 0), p(3, 4)), 5);
    assert_eq!(segment_len(p(3, 4), p(0, 0)), 5);
    assert_eq!(segment_len(p(0, 0), p(1, 1)), 1);
    assert_eq!(segment_len(p(i32::MIN, i32::MIN), p(i32::MAX, i32::MAX)), 6_074_000_998);
    assert_eq!(polyline_length(&vec![]), 0);
    assert_eq!(polyline_length(&vec![p(5, 5)]), 0);
    assert_eq!(polyline_length(&vec![p(0, 0), p(3, 4), p(3, 14), p(0, 10)]), 20);
}

#[test]
fn mercator_carries_points_both_ways() {
    let m = Mercator::new(p(-1_000, 500_000), p(1_000, 510_000), 14_000, 111_000).unwrap();
    assert_eq!(m.pt_to_mercator(p(-1_000, 510_000)), p(0, 0));
    assert_eq!(m.pt_to_mercator(p(1_000, 500_000)), p(14_000, 111_000));
    assert_eq!(m.pt_to_mercator(p(0, 505_000)), p(7_000, 55_500));
    assert_eq!(m.pt_to_mercator(p(-999, 500_001)), p(7, 111_000 - 11));
    // a place outside the bounds lands outside the frame
    assert_eq!(m.pt_to_mercator(p(-2_000, 520_000)), p(-7_000, -111_000));
    assert_eq!(m.pt_to_wgs84(p(0, 0)), p(-1_000, 510_000));
    assert_eq!(m.pt_to_wgs84(p(14_000, 111_000)), p(1_000, 500_000));
    assert_eq!(m.pt_to_wgs84(p(7_000, 55_500)), p(0, 505_000));
    let mut pts = vec![p(-1_000, 510_000), p(0, 505_000)];
    m.to_mercator_in_place(&mut pts);
    assert_eq!(pts, vec![p(0, 0), p(7_000, 55_500)]);
    // bounds that are not in order
    assert_eq!(Mercator::new(p(1, 0), p(0, 1), 10, 10), None);
    // bounds without extent
    let flat = Mercator::new(p(5, 5), p(5, 5), 10, 10).unwrap();
    assert_eq!(flat.pt_to_mercator(p(5, 5)), p(0, 10));
    assert_eq!(flat.pt_to_wgs84(p(3, 3)), p(5, 5));
}

#[test]
fn bounds_of_points() {
    assert_eq!(bounding_box(&vec![]), None);
    assert_eq!(bounding_box(&vec![p(3, -4)]), Some((p(3, -4), p(3, -4))));
    assert_eq!(
        bounding_box(&vec![p(3, -4), p(-1, 7), p(10, 0), p(2, 2)]),
        Some((p(-1, -4), p(10, 7)))
    );
}

#[test]
fn costs_of_roads() {
    let uk = Settings::uk();
    assert!(uk.obey_crossings);
    assert_eq!(uk.base_speed_mph, 3000);
    assert_eq!(uk.delay_signalized, 30_000);
    assert_eq!(uk.delay_zebra, 0);
    assert_eq!(uk.delay_other, 10_000);
    assert_eq!(mph_to_mps(3000), 134_112_000);
    assert_eq!(mph_to_mps(1), 44_704);
    let road = vec![p(0, 0), p(10_000, 0)];
    assert_eq!(cost(&road, RoadKind::WithTraffic, &uk), (74_564, 0));
    assert_eq!(cost(&road, RoadKind::Footway, &uk), (74_564, 0));
    assert_eq!(cost(&road, RoadKind::Severance, &uk), (74_564, 0));
    assert_eq!(cost(&road, RoadKind::Crossing(CrossingKind::Signalized), &uk), (74_564, 30_000));
    assert_eq!(cost(&road, RoadKind::Crossing(CrossingKind::Zebra), &uk), (74_564, 0));
    assert_eq!(cost(&road, RoadKind::Crossing(CrossingKind::Other), &uk), (74_564, 10_000));
    assert_eq!(road_cost(&road, RoadKind::Crossing(CrossingKind::Other), &uk), 84_564);
    // twice as fast, half the time
    let fast = Settings { base_speed_mph: 6000, ..uk };
    assert_eq!(cost(&road, RoadKind::Crossing(CrossingKind::Other), &fast), (37_282, 10_000));
    // a road without length costs no walking
    assert_eq!(cost(&vec![p(1, 1), p(1, 1)], RoadKind::Footway, &uk), (0, 0));
    // a crawl over the longest segment there is: 4 294 967 295 cm at 0.00044704 m/s
    let crawl = Settings { base_speed_mph: 1, ..uk };
    let far = vec![p(i32::MIN, 0), p(i32::MAX, 0)];
    assert_eq!(cost(&far, RoadKind::Footway, &crawl).0, 96_075_682_153_722);
    assert_eq!(uk.walker(), severance::graph::Walker::Walking);
    assert_eq!(
        Settings { obey_crossings: false, ..uk }.walker(),
        severance::graph::Walker::CrossAnywhere
    );
}

#[test]
fn parts_of_first_and_last_roads() {
    assert_eq!(position(0, 1), Position::Only);
    assert_eq!(position(0, 2), Position::First);
    assert_eq!(position(1, 2), Position::Last);
    assert_eq!(position(1, 3), Position::Middle);
    assert_eq!(position(2, 3), Position::Last);
    assert_eq!(covered(Position::First, true, 250_000, 0), 750_000);
    assert_eq!(covered(Position::First, false, 250_000, 0), 250_000);
    assert_eq!(covered(Position::Last, true, 0, 400_000), 400_000);
    assert_eq!(covered(Position::Last, false, 0, 400_000), 600_000);
    assert_eq!(covered(Position::Middle, false, 1, 2), 1_000_000);
    assert_eq!(covered(Position::Only, true, 250_000, 400_000), 150_000);
    assert_eq!(covered(Position::Only, true, 400_000, 250_000), 150_000);
}

#[test]
fn points_are_snapped_to_lines() {
    // beside the segment
    assert_eq!(snap_to_segment(p(0, 0), p(100, 0), p(30, 40)), (40, 30));
    assert_eq!(snap_to_segment(p(0, 0), p(100, 0), p(30, -40)), (40, 30));
    // before and behind the segment
    assert_eq!(snap_to_segment(p(0, 0), p(100, 0), p(-30, 40)), (50, 0));
    assert_eq!(snap_to_segment(p(0, 0), p(100, 0), p(130, 40)), (50, 100));
    // on the segment, and on its ends
    assert_eq!(snap_to_segment(p(0, 0), p(100, 0), p(100, 0)), (0, 100));
    assert_eq!(snap_to_segment(p(0, 0), p(100, 0), p(0, 0)), (0, 0));
    assert_eq!(snap_to_segment(p(0, 0), p(30, 40), p(15, 20)), (0, 25));
    // a segment without length
    assert_eq!(snap_to_segment(p(5, 5), p(5, 5), p(8, 9)), (5, 0));
    let line = vec![p(0, 0), p(100, 0), p(100, 100)];
    assert_eq!(snap_to_line(&line, p(30, 10)), (10, 30));
    assert_eq!(snap_to_line(&line, p(90, 60)), (10, 160));
    assert_eq!(snap_to_line(&line, p(200, 200)), (141, 200));
    // as near to both segments: the first one counts
    assert_eq!(snap_to_line(&line, p(90, 10)), (10, 90));
    assert_eq!(snap_to_line(&vec![p(3, 4)], p(0, 0)), (5, 0));
    assert_eq!(locate_fraction(&line, p(30, 10)), 150_000);
    assert_eq!(locate_fraction(&line, p(90, 60)), 800_000);
    assert_eq!(locate_fraction(&line, p(-50, -50)), 0);
    assert_eq!(locate_fraction(&line, p(200, 200)), 1_000_000);
    assert_eq!(locate_fraction(&vec![p(1, 1), p(1, 1)], p(5, 5)), 0);
    assert_eq!(locate_fraction(&vec![p(1, 1)], p(5, 5)), 0);
}

#[test]
fn flip_and_replace() {
    let mut ids = vec![("a", true), ("b", false), ("c", true)];
    flip_direction(&mut ids);
    assert_eq!(ids, vec![("a", false), ("b", true), ("c", false)]);
    let mut none: Vec<(u8, bool)> = vec![];
    flip_direction(&mut none);
    assert_eq!(none, vec![]);
    let mut indices = vec![3, 1, 3, 2];
    replace(&mut indices, 3, 7);
    assert_eq!(indices, vec![7, 1, 7, 2]);
    replace(&mut indices, 5, 9);
    assert_eq!(indices, vec![7, 1, 7, 2]);
}

#[test]
fn ends_of_lines() {
    let l = line(&[(0, 0), (5, 0), (5, 5)], 1, 3);
    assert_eq!(l.first_pt(), HashedPoint(0, 0, 3));
    assert_eq!(l.last_pt(), HashedPoint(5, 5, 3));
    assert_eq!(l.other_endpt(HashedPoint(0, 0, 3)), HashedPoint(5, 5, 3));
    assert_eq!(l.other_endpt(HashedPoint(5, 5, 3)), HashedPoint(0, 0, 3));
    assert_eq!(HashedPoint::new(p(-2, 9), 1), HashedPoint(-2, 9, 1));
}

#[test]
fn joining_two_lines_in_every_way() {
    // the end of the first meets the start of the second
    let j = join_lines(line(&[(0, 0), (1, 0)], 1, 0), line(&[(1, 0), (2, 0)], 2, 0));
    assert_eq!(shape(&j), (vec![p(0, 0), p(1, 0), p(2, 0)], vec![(1, true), (2, true)], 0));
    // the start of the first meets the end of the second
    let j = join_lines(line(&[(1, 0), (2, 0)], 1, 0), line(&[(0, 0), (1, 0)], 2, 0));
    assert_eq!(shape(&j), (vec![p(0, 0), p(1, 0), p(2, 0)], vec![(2, true), (1, true)], 0));
    // start meets start
    let j = join_lines(line(&[(1, 0), (0, 0)], 1, 0), line(&[(1, 0), (2, 0)], 2, 0));
    assert_eq!(shape(&j), (vec![p(0, 0), p(1, 0), p(2, 0)], vec![(1, false), (2, true)], 0));
    // end meets end
    let j = join_lines(line(&[(0, 0), (1, 0)], 1, 0), line(&[(2, 0), (1, 0)], 2, 0));
    assert_eq!(shape(&j), (vec![p(0, 0), p(1, 0), p(2, 0)], vec![(1, true), (2, false)], 0));
}

#[test]
fn collapse_joins_chains() {
    let input = vec![
        line(&[(0, 0), (1, 0)], 1, 0),
        line(&[(2, 0), (1, 0)], 2, 0),
        line(&[(2, 0), (3, 0), (4, 0)], 3, 0),
        // apart from the chain
        line(&[(10, 0), (11, 0)], 4, 0),
    ];
    let output = collapse_degree_2(input);
    assert_eq!(output.len(), 2);
    assert_eq!(shape(&output[0]), (vec![p(10, 0), p(11, 0)], vec![(4, true)], 0));
    let joined = &output[1];
    let forwards = (
        vec![p(0, 0), p(1, 0), p(2, 0), p(3, 0), p(4, 0)],
        vec![(1, true), (2, false), (3, true)],
        0,
    );
    let backwards = (
        vec![p(4, 0), p(3, 0), p(2, 0), p(1, 0), p(0, 0)],
        vec![(3, false), (2, true), (1, false)],
        0,
    );
    assert!(shape(joined) == forwards || shape(joined) == backwards);
    // a second pass changes nothing
    let shapes: Vec<_> = output.iter().map(shape).collect();
    let again = collapse_degree_2(output);
    assert_eq!(again.iter().map(shape).collect::<Vec<_>>(), shapes);
}

#[test]
fn collapse_leaves_junctions_and_keys_alone() {
    // three lines meet at one point
    let input = vec![
        line(&[(0, 0), (1, 0)], 1, 0),
        line(&[(1, 0), (2, 0)], 2, 0),
        line(&[(1, 0), (1, 1)], 3, 0),
    ];
    let output = collapse_degree_2(input);
    assert_eq!(output.len(), 3);
    assert_eq!(output.iter().map(|l| l.ids[0].0).collect::<Vec<_>>(), vec![1, 2, 3]);
    // two lines meet, but their keys differ
    let input = vec![line(&[(0, 0), (1, 0)], 1, 7), line(&[(1, 0), (2, 0)], 2, 8)];
    let output = collapse_degree_2(input);
    assert_eq!(output.len(), 2);
    assert_eq!(output.iter().map(|l| (l.ids[0].0, l.key)).collect::<Vec<_>>(), vec![(1, 7), (2, 8)]);
    // nothing to join at all
    let output = collapse_degree_2(Vec::<KeyedLineString<u32>>::new());
    assert_eq!(output.len(), 0);
}

#[test]
fn collapse_keeps_loops() {
    // a line that comes back to its start
    let input = vec![line(&[(0, 0), (1, 0), (1, 1), (0, 0)], 1, 0)];
    let output = collapse_degree_2(input);
    assert_eq!(output.len(), 1);
    assert_eq!(output[0].linestring.len(), 4);
    // two lines that make a loop are joined once
    let input =
        vec![line(&[(0, 0), (1, 0), (1, 1)], 1, 0), line(&[(1, 1), (0, 1), (0, 0)], 2, 0)];
    let output = collapse_degree_2(input);
    assert_eq!(output.len(), 1);
    assert_eq!(output[0].linestring.len(), 5);
    assert_eq!(output[0].linestring[0], output[0].linestring[4]);
    let mut ids: Vec<u32> = output[0].ids.iter().map(|(id, _)| *id).collect();
    ids.sort();
    assert_eq!(ids, vec![1, 2]);
}

#[test]
fn lines_across_a_road() {
    // a road of 75 m to the east: a line across it every 25 m
    let road = vec![p(0, 0), p(7_500, 0)];
    let lines = make_perpendicular_offsets(&road, 2_500, 1_500);
    assert_eq!(
        lines,
        vec![
            Line { start: p(0, -1_500), end: p(0, 1_500) },
            Line { start: p(2_500, -1_500), end: p(2_500, 1_500) },
            Line { start: p(5_000, -1_500), end: p(5_000, 1_500) },
        ]
    );
    // a road to the north
    let road = vec![p(0, 0), p(0, 1_000)];
    assert_eq!(
        make_perpendicular_offsets(&road, 2_500, 1_500),
        vec![Line { start: p(1_500, 0), end: p(-1_500, 0) }]
    );
    // a road at an angle of 3 : 4
    let road = vec![p(0, 0), p(300, 400)];
    assert_eq!(
        make_perpendicular_offsets(&road, 2_500, 1_000),
        vec![Line { start: p(800, -600), end: p(-800, 600) }]
    );
    assert_eq!(make_perpendicular_offsets(&vec![], 2_500, 1_500), vec![]);
    assert_eq!(make_perpendicular_offsets(&vec![p(1, 1)], 2_500, 1_500), vec![]);
    assert_eq!(project_away(p(10, 10), 3, -4, 5, 100), p(70, -70));
    assert_eq!(project_away(p(10, 10), 3, -4, 0, 100), p(110, 10));
}

#[test]
fn samples_along_a_line() {
    assert_eq!(densify(&vec![], 100), vec![]);
    assert_eq!(densify(&vec![p(7, 7)], 100), vec![p(7, 7)]);
    assert_eq!(densify(&vec![p(0, 0), p(100, 0)], 100), vec![p(0, 0), p(100, 0)]);
    assert_eq!(
        densify(&vec![p(0, 0), p(250, 0), p(250, -100)], 100),
        vec![p(0, 0), p(83, 0), p(166, 0), p(250, 0), p(250, -100)]
    );
    assert_eq!(
        densify(&vec![p(0, 0), p(-30, -40)], 20),
        vec![p(0, 0), p(-10, -13), p(-20, -26), p(-30, -40)]
    );
    assert_eq!(densify(&vec![p(5, 5), p(5, 5)], 10), vec![p(5, 5), p(5, 5)]);
}

#[test]
fn scores_of_detours() {
    assert_eq!(detour_score(3_000, 3_000), Some(1000));
    assert_eq!(detour_score(23_000, 3_000), Some(7666));
    assert_eq!(detour_score(0, 3_000), Some(0));
    assert_eq!(detour_score(5, 0), None);
    assert_eq!(detour_score(u64::MAX, 1), Some(u64::MAX));
}

#[test]
fn places_are_found_on_lines() {
    let l = vec![p(0, 0), p(100, 0), p(100, 100)];
    // a vertex is the end of the segment that leads to it
    assert_eq!(find_nearest(&l, p(100, 0)), Some((0, 100)));
    assert_eq!(find_nearest(&l, p(0, 0)), Some((0, 0)));
    assert_eq!(find_nearest(&l, p(100, 100)), Some((1, 100)));
    assert_eq!(find_nearest(&l, p(30, 10)), Some((0, 30)));
    assert_eq!(find_nearest(&l, p(110, 60)), Some((1, 60)));
    assert_eq!(find_nearest(&l, p(-5, -5)), Some((0, 0)));
    // as near to both segments: the first
    assert_eq!(find_nearest(&l, p(90, 10)), Some((0, 90)));
    assert_eq!(find_nearest(&vec![p(1, 1), p(1, 1)], p(5, 5)), Some((0, 0)));
    assert_eq!(find_nearest(&vec![p(1, 1)], p(0, 0)), None);
    assert_eq!(find_nearest(&vec![], p(0, 0)), None);
}

#[test]
fn places_are_marked_on_lines() {
    let mut l = vec![p(0, 0), p(100, 0), p(100, 100)];
    let mut marks = vec![true, false, true];
    let mut arcs = measure_arcs(&l);
    assert_eq!(arcs, vec![0, 100, 200]);
    // at a vertex: the vertex is marked
    mark_place(&mut l, &mut marks, &mut arcs, p(100, 0));
    assert_eq!(l, vec![p(0, 0), p(100, 0), p(100, 100)]);
    assert_eq!(marks, vec![true, true, true]);
    assert_eq!(arcs, vec![0, 100, 200]);
    // beside a segment: the place on the segment becomes a vertex
    let mut marks = vec![true, false, true];
    mark_place(&mut l, &mut marks, &mut arcs, p(30, 10));
    assert_eq!(l, vec![p(0, 0), p(30, 0), p(100, 0), p(100, 100)]);
    assert_eq!(marks, vec![true, true, false, true]);
    assert_eq!(arcs, vec![0, 30, 100, 200]);
    mark_place(&mut l, &mut marks, &mut arcs, p(120, 75));
    assert_eq!(l, vec![p(0, 0), p(30, 0), p(100, 0), p(100, 75), p(100, 100)]);
    assert_eq!(marks, vec![true, true, false, true, true]);
    assert_eq!(arcs, vec![0, 30, 100, 175, 200]);
    // before the start of the line: its first point
    mark_place(&mut l, &mut marks, &mut arcs, p(-50, 0));
    assert_eq!(l.len(), 5);
    // a single point has no place for a mark
    let mut one = vec![p(7, 7)];
    let mut mark = vec![true];
    let mut arc = measure_arcs(&one);
    mark_place(&mut one, &mut mark, &mut arc, p(0, 0));
    assert_eq!((one, mark, arc), (vec![p(7, 7)], vec![true], vec![0]));
    assert_eq!(measure_arcs(&vec![]), Vec::<u64>::new());
}

fn crossing(x: i32, y: i32, roads: &[usize], kind: Option<&str>) -> Crossing {
    let mut tags = Tags::empty();
    if let Some(kind) = kind {
        tags.insert("crossing", kind);
    }
    Crossing {
        osm_id: NodeID(1),
        point: p(x, y),
        tags,
        kind: CrossingKind::Other,
        roads: roads.iter().map(|r| RoadID(*r)).collect(),
    }
}

#[test]
fn lines_are_cut_at_the_places_nearest_to_crossings() {
    let line = || KeyedLineString {
        linestring: vec![p(0, 0), p(1_000, 0)],
        ids: vec![(RoadID(3), true), (RoadID(4), false)],
        key: 0,
    };
    let crossings = vec![
        // beside the line, 600 along it
        crossing(600, 40, &[4], None),
        // on the line, 250 along it
        crossing(250, 0, &[9, 3], Some("zebra")),
        // on another road
        crossing(500, 0, &[5], None),
        // of a kind that is not asked for
        crossing(800, 0, &[3], Some("marked")),
    ];
    let kinds = vec!["unknown".to_string(), "zebra".to_string()];
    let (pts, marks, arcs) = mark_cuts(&line(), &crossings, &kinds);
    assert_eq!(pts, vec![p(0, 0), p(250, 0), p(600, 0), p(1_000, 0)]);
    assert_eq!(marks, vec![true, true, true, true]);
    assert_eq!(arcs, vec![0, 250, 600, 1_000]);
    let pieces = split_by_crossings(&vec![line()], &crossings, &kinds);
    let shapes: Vec<Vec<Pt>> = pieces.iter().map(|s| s.linestring.clone()).collect();
    assert_eq!(
        shapes,
        vec![
            vec![p(0, 0), p(250, 0)],
            vec![p(250, 0), p(600, 0)],
            vec![p(600, 0), p(1_000, 0)],
        ]
    );
    let lengths: Vec<u64> = pieces.iter().map(|s| s.length).collect();
    assert_eq!(lengths, vec![250, 350, 400]);
    // no crossing is asked for: the line stays in one piece
    let pieces = split_by_crossings(&vec![line()], &crossings, &vec![]);
    assert_eq!(pieces.len(), 1);
    assert_eq!(pieces[0].linestring, vec![p(0, 0), p(1_000, 0)]);
    assert_eq!(pieces[0].length, 1_000);
    // a line of one point has no pieces
    let dot = KeyedLineString { linestring: vec![p(5, 5)], ids: vec![(RoadID(3), true)], key: 0 };
    assert_eq!(split_by_crossings(&vec![dot], &crossings, &kinds).len(), 0);
}

#[test]
fn pieces_of_a_slanted_line_are_as_long_together_as_the_line() {
    // a line at an angle of 3 : 4, a thousand long, with a bend in it
    let line = KeyedLineString {
        linestring: vec![p(0, 0), p(300, 400), p(600, 800), p(600, 1_000)],
        ids: vec![(RoadID(1), true)],
        key: 0,
    };
    let crossings = vec![
        crossing(101, 132, &[1], None),
        crossing(455, 601, &[1], None),
        crossing(590, 903, &[1], None),
    ];
    let kinds = vec!["unknown".to_string()];
    let whole = polyline_length(&line.linestring);
    assert_eq!(whole, 1_200);
    let pieces = split_by_crossings(&vec![line], &crossings, &kinds);
    assert_eq!(pieces.len(), 4);
    assert_eq!(pieces.iter().map(|s| s.length).sum::<u64>(), whole);
    assert_eq!(pieces[0].linestring[0], p(0, 0));
    assert_eq!(*pieces[3].linestring.last().unwrap(), p(600, 1_000));
    for pair in pieces.windows(2) {
        assert_eq!(pair[0].linestring.last(), pair[1].linestring.first());
    }
    // each piece is as long as its points say, but for what rounding takes away
    for piece in &pieces {
        let drawn = polyline_length(&piece.linestring);
        assert!(piece.length.abs_diff(drawn) <= 2, "{} against {}", piece.length, drawn);
    }
}

#[test]
fn grids_are_stamped_and_drawn() {
    let mut grid = Grid::new(3, 2);
    assert_eq!(grid.data, vec![None; 6]);
    assert_eq!(grid.idx(2, 1), 5);
    grid.stamp(&vec![p(0, 0), p(25_000, 10_000), p(-1, 5), p(30_000, 0), p(0, 20_000)], 200_000);
    grid.stamp(&vec![p(9_999, 9_999)], 540_000);
    assert_eq!(grid.data, vec![Some(540_000), None, None, None, None, Some(200_000)]);
    let features = render_grid(&grid);
    assert_eq!(
        features,
        vec![
            Feature { shape: Shape::Cell(0, 0), cost1: 540, cost2: None },
            Feature { shape: Shape::Cell(2, 1), cost1: 180, cost2: None },
        ]
    );
    assert_eq!(Grid::new(0, 5).data.len(), 0);
}

#[test]
fn features_of_roads_and_buildings() {
    let first = vec![Some(1_999), None, Some(60_000)];
    let second = vec![None, Some(5_000), Some(61_500)];
    assert_eq!(
        draw_roads(&first, None),
        vec![
            Feature { shape: Shape::Road(RoadID(0)), cost1: 1, cost2: None },
            Feature { shape: Shape::Road(RoadID(2)), cost1: 60, cost2: None },
        ]
    );
    assert_eq!(
        draw_roads(&first, Some(&second)),
        vec![
            Feature { shape: Shape::Road(RoadID(0)), cost1: 1, cost2: None },
            Feature { shape: Shape::Road(RoadID(2)), cost1: 60, cost2: Some(61) },
        ]
    );
    let buildings = vec![vec![], vec![vec![p(0, 0)]], vec![vec![p(1, 1)], vec![p(2, 2)]]];
    assert_eq!(
        draw_buildings(&buildings, &first, Some(&second)),
        vec![
            Feature { shape: Shape::Building(RoadID(2), 0), cost1: 60, cost2: Some(61) },
            Feature { shape: Shape::Building(RoadID(2), 1), cost1: 60, cost2: Some(61) },
        ]
    );
}

#[test]
fn rastering_an_empty_graph() {
    let g = severance::graph::Graph::empty();
    let grid = raster(&g, &vec![], 2, 2);
    assert_eq!(grid.data, vec![None; 4]);
}

#[test]
fn sizes_from_the_largest_down() {
    assert_eq!(sort_descending(&vec![]), vec![]);
    assert_eq!(sort_descending(&vec![3, 1, 4, 1, 5, 9, 2, 6]), vec![9, 6, 5, 4, 3, 2, 1, 1]);
    assert_eq!(sort_descending(&vec![7]), vec![7]);
}

#[test]
fn joined_lines_keep_the_key_of_their_pieces() {
    // two chains on the same points, one of the key 7 and one of the key 8
    let input = vec![
        line(&[(0, 0), (1, 0)], 1, 7),
        line(&[(0, 0), (1, 0)], 2, 8),
        line(&[(1, 0), (2, 0)], 3, 8),
        line(&[(1, 0), (2, 0)], 4, 7),
    ];
    let output = collapse_degree_2(input);
    // one joining for each key: two lines fewer than went in
    assert_eq!(output.len(), 2);
    for joined in &output {
        let mut ids: Vec<u32> = joined.ids.iter().map(|(id, _)| *id).collect();
        ids.sort();
        match joined.key {
            7 => assert_eq!(ids, vec![1, 4]),
            8 => assert_eq!(ids, vec![2, 3]),
            other => panic!("a key that no line had: {other}"),
        }
        assert_eq!(joined.linestring.len(), 3);
    }
}
