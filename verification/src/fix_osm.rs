//! Looking for roads whose sidewalks may have been mapped twice: as tags on the road, and as
//! footways beside it.

use crate::geometry::Pt;
use crate::graph::{Graph, RoadID};
use crate::model::MapModel;
use crate::profiles::{has_separate_sidewalk, separate_sidewalk};
use crate::scores::{make_perpendicular_offsets, offsets, Line, PROJECT_AWAY, WALK_EVERY};
use crate::tags::{tag_is, tag_is_any, Tags};
use vstd::prelude::*;

verus! {

/// Twice the area of the triangle `a`, `b`, `c`, with a sign: more than nothing where the
/// corners come counterclockwise, less where they come clockwise, nothing where they lie on a
/// line.
pub open spec fn cross(a: Pt, b: Pt, c: Pt) -> int {
    (b.x - a.x) * (c.y - a.y) - (b.y - a.y) * (c.x - a.x)
}

/// On which side of the line from `a` to `b` the point `c` lies: 1, -1, or 0 for on the line.
pub open spec fn side(a: Pt, b: Pt, c: Pt) -> int {
    if cross(a, b, c) > 0 {
        1
    } else if cross(a, b, c) < 0 {
        -1
    } else {
        0
    }
}

/// The point `c` lies within the rectangle that `a` and `b` span.
pub open spec fn within(a: Pt, b: Pt, c: Pt) -> bool {
    &&& (a.x <= c.x <= b.x || b.x <= c.x <= a.x)
    &&& (a.y <= c.y <= b.y || b.y <= c.y <= a.y)
}

/// The segment from `a1` to `a2` and the segment from `b1` to `b2` have a point in common:
/// each has its ends on either side of the other, or an end of the one lies on the other.
pub open spec fn segments_meet(a1: Pt, a2: Pt, b1: Pt, b2: Pt) -> bool {
    let d1 = side(b1, b2, a1);
    let d2 = side(b1, b2, a2);
    let d3 = side(a1, a2, b1);
    let d4 = side(a1, a2, b2);
    ||| (d1 * d2 < 0 && d3 * d4 < 0)
    ||| (d1 == 0 && within(b1, b2, a1))
    ||| (d2 == 0 && within(b1, b2, a2))
    ||| (d3 == 0 && within(a1, a2, b1))
    ||| (d4 == 0 && within(a1, a2, b2))
}

/// The line has a point in common with the polyline.
pub open spec fn line_meets(line: Line, poly: Seq<Pt>) -> bool {
    exists|k: int|
        0 <= k < poly.len() - 1 && segments_meet(line.start, line.end, #[trigger] poly[k], poly[k + 1])
}

/// The road is a footway.
pub open spec fn is_footway(tags: Map<Seq<char>, Seq<char>>) -> bool {
    tag_is(tags, "highway"@, "footway"@)
}

/// The least and the greatest coordinates among the first `n` points.
pub open spec fn envelope_of(pts: Seq<Pt>, n: nat) -> (Pt, Pt)
    decreases n,
{
    if n <= 1 {
        (pts[0], pts[0])
    } else {
        let (lo, hi) = envelope_of(pts, (n - 1) as nat);
        let p = pts[n - 1];
        (
            Pt {
                x: if p.x < lo.x {
                    p.x
                } else {
                    lo.x
                },
                y: if p.y < lo.y {
                    p.y
                } else {
                    lo.y
                },
            },
            Pt {
                x: if p.x > hi.x {
                    p.x
                } else {
                    hi.x
                },
                y: if p.y > hi.y {
                    p.y
                } else {
                    hi.y
                },
            },
        )
    }
}

/// The rectangle that a line lies in.
pub open spec fn line_box(line: Line) -> (Pt, Pt) {
    envelope_of(seq![line.start, line.end], 2)
}

/// The corners of the rectangle are in order: the least coordinates first.
pub open spec fn in_order(b: (Pt, Pt)) -> bool {
    b.0.x <= b.1.x && b.0.y <= b.1.y
}

/// Two rectangles have a point in common, if only on their edges.
pub open spec fn touch(a: (Pt, Pt), b: (Pt, Pt)) -> bool {
    a.0.x <= b.1.x && a.1.x >= b.0.x && a.0.y <= b.1.y && a.1.y >= b.0.y
}

/// The line has a point in common with the footway `f`, and the rectangles that the two lie in
/// have one too.
pub open spec fn meets_footway_at(g: Graph, line: Line, f: int) -> bool {
    let way = g.roads@[f].linestring@;
    &&& is_footway(g.roads@[f].tags@)
    &&& way.len() > 0
    &&& touch(envelope_of(way, way.len()), line_box(line))
    &&& line_meets(line, way)
}

/// The line has a point in common with a footway of the graph.
pub open spec fn meets_a_footway(g: Graph, line: Line) -> bool {
    exists|f: int| 0 <= f < g.roads@.len() && #[trigger] meets_footway_at(g, line, f)
}

/// Rectangles, kept in an R-tree of `rstar` by which those near a place are found quickly.
#[verifier::external_body]
pub struct BoxIndex {
    tree: rstar::RTree<
        rstar::primitives::GeomWithData<rstar::primitives::Rectangle<[i32; 2]>, usize>,
    >,
}

/// The rectangles that an index holds, in the order in which they were loaded.
pub uninterp spec fn held(index: BoxIndex) -> Seq<(Pt, Pt)>;

/// `rstar::RTree::bulk_load`: a tree that holds the rectangles, each with its place among
/// them. A rectangle is kept by its least and its greatest corner, so the corners of each must
/// come in that order for the tree to hold them as they are given.
#[verifier::external_body]
fn bulk_load(boxes: &Vec<(Pt, Pt)>) -> (index: BoxIndex)
    requires
        forall|k: int| 0 <= k < boxes@.len() ==> in_order(#[trigger] boxes@[k]),
    ensures
        held(index) == boxes@,
{
    let item = |(k, b): (usize, &(Pt, Pt))| {
        let corners = rstar::primitives::Rectangle::from_corners([b.0.x, b.0.y], [b.1.x, b.1.y]);
        rstar::primitives::GeomWithData::new(corners, k)
    };
    BoxIndex { tree: rstar::RTree::bulk_load(boxes.iter().enumerate().map(item).collect()) }
}

/// The rectangle at the place `k` of the index has a point in common with the rectangle asked
/// for.
pub open spec fn found_by(index: BoxIndex, query: (Pt, Pt), k: int) -> bool {
    0 <= k < held(index).len() && touch(held(index)[k], query)
}

/// Every rectangle of the index has its corners in order.
pub open spec fn all_in_order(index: BoxIndex) -> bool {
    forall|k: int| 0 <= k < held(index).len() ==> in_order(#[trigger] held(index)[k])
}

/// `rstar::RTree::locate_in_envelope_intersecting`: the places of all rectangles of the tree
/// that have a point in common with the rectangle asked for, if only on their edges; each
/// once, in no order that is promised.
#[verifier::external_body]
fn locate_in_envelope_intersecting(index: &BoxIndex, query: (Pt, Pt)) -> (hits: Vec<usize>)
    requires
        in_order(query),
        all_in_order(*index),
    ensures
        hits@.no_duplicates(),
        forall|k: usize| hits@.contains(k) <==> found_by(*index, query, k as int),
{
    let envelope = rstar::AABB::from_corners([query.0.x, query.0.y], [query.1.x, query.1.y]);
    index.tree.locate_in_envelope_intersecting(envelope).map(|item| item.data).collect()
}

/// The road is one to look at: no footway, not tagged as having its sidewalks mapped apart,
/// and, where only doubles are asked for, tagged as having a sidewalk.
pub open spec fn to_check(tags: Map<Seq<char>, Seq<char>>, duplicates_only: bool) -> bool {
    &&& !is_footway(tags)
    &&& !separate_sidewalk(tags)
    &&& duplicates_only ==> tag_is_any(tags, "sidewalk"@, seq!["left", "right", "both"])
}

/// A footway runs beside the road `r`: one of the lines laid across the road has a point in
/// common with a footway.
pub open spec fn beside_footway(g: Graph, r: int) -> bool {
    exists|i: int|
        0 <= i < offsets(g.roads@[r].linestring@, WALK_EVERY as nat, PROJECT_AWAY as int).len()
            && meets_a_footway(
            g,
            #[trigger] offsets(g.roads@[r].linestring@, WALK_EVERY as nat, PROJECT_AWAY as int)[i],
        )
}

/// The roads among the first `n` that are to be looked at and beside which a footway runs.
pub open spec fn separate_sidewalks(g: Graph, duplicates_only: bool, n: nat) -> Seq<RoadID>
    decreases n,
{
    if n == 0 {
        Seq::empty()
    } else {
        let before = separate_sidewalks(g, duplicates_only, (n - 1) as nat);
        if to_check(g.roads@[n - 1].tags@, duplicates_only) && beside_footway(g, n - 1) {
            before.push(g.roads@[n - 1].id)
        } else {
            before
        }
    }
}

fn cross_of(a: Pt, b: Pt, c: Pt) -> (v: i128)
    ensures
        v == cross(a, b, c),
{
    let abx: i128 = b.x as i128 - a.x as i128;
    let aby: i128 = b.y as i128 - a.y as i128;
    let acx: i128 = c.x as i128 - a.x as i128;
    let acy: i128 = c.y as i128 - a.y as i128;
    assert(-0x1_0000_0000 * 0x1_0000_0000 <= abx * acy <= 0x1_0000_0000 * 0x1_0000_0000)
        by (nonlinear_arith)
        requires
            -0x1_0000_0000 <= abx <= 0x1_0000_0000,
            -0x1_0000_0000 <= acy <= 0x1_0000_0000,
    ;
    assert(-0x1_0000_0000 * 0x1_0000_0000 <= aby * acx <= 0x1_0000_0000 * 0x1_0000_0000)
        by (nonlinear_arith)
        requires
            -0x1_0000_0000 <= aby <= 0x1_0000_0000,
            -0x1_0000_0000 <= acx <= 0x1_0000_0000,
    ;
    abx * acy - aby * acx
}

fn side_of(a: Pt, b: Pt, c: Pt) -> (s: i8)
    ensures
        s == side(a, b, c),
{
    let v = cross_of(a, b, c);
    if v > 0 {
        1
    } else if v < 0 {
        -1
    } else {
        0
    }
}

fn is_within(a: Pt, b: Pt, c: Pt) -> (yes: bool)
    ensures
        yes == within(a, b, c),
{
    ((a.x <= c.x && c.x <= b.x) || (b.x <= c.x && c.x <= a.x)) && ((a.y <= c.y && c.y <= b.y) || (
    b.y <= c.y && c.y <= a.y))
}

/// Whether two segments have a point in common.
pub fn intersects(a1: Pt, a2: Pt, b1: Pt, b2: Pt) -> (yes: bool)
    ensures
        yes == segments_meet(a1, a2, b1, b2),
{
    let d1 = side_of(b1, b2, a1);
    let d2 = side_of(b1, b2, a2);
    let d3 = side_of(a1, a2, b1);
    let d4 = side_of(a1, a2, b2);
    assert((d1 * d2 < 0) == ((d1 == 1 && d2 == -1) || (d1 == -1 && d2 == 1))) by (nonlinear_arith)
        requires
            -1 <= d1 <= 1,
            -1 <= d2 <= 1,
    ;
    assert((d3 * d4 < 0) == ((d3 == 1 && d4 == -1) || (d3 == -1 && d4 == 1))) by (nonlinear_arith)
        requires
            -1 <= d3 <= 1,
            -1 <= d4 <= 1,
    ;
    let apart12 = (d1 == 1 && d2 == -1) || (d1 == -1 && d2 == 1);
    let apart34 = (d3 == 1 && d4 == -1) || (d3 == -1 && d4 == 1);
    (apart12 && apart34) || (d1 == 0 && is_within(b1, b2, a1)) || (d2 == 0 && is_within(b1, b2, a2))
        || (d3 == 0 && is_within(a1, a2, b1)) || (d4 == 0 && is_within(a1, a2, b2))
}

fn meets_polyline(line: Line, poly: &Vec<Pt>) -> (yes: bool)
    ensures
        yes == line_meets(line, poly@),
{
    if poly.len() < 2 {
        return false;
    }
    let mut k: usize = 0;
    while k < poly.len() - 1
        invariant
            poly@.len() >= 2,
            k <= poly@.len() - 1,
            forall|j: int|
                0 <= j < k ==> !segments_meet(line.start, line.end, #[trigger] poly@[j], poly@[j + 1]),
        decreases poly@.len() - k,
    {
        if intersects(line.start, line.end, poly[k], poly[k + 1]) {
            return true;
        }
        k += 1;
    }
    false
}

/// The rectangle that the points lie in.
pub fn envelope(pts: &Vec<Pt>) -> (b: (Pt, Pt))
    requires
        pts@.len() > 0,
    ensures
        b == envelope_of(pts@, pts@.len()),
        in_order(b),
{
    let mut lo = pts[0];
    let mut hi = pts[0];
    let mut i: usize = 1;
    while i < pts.len()
        invariant
            1 <= i <= pts@.len(),
            (lo, hi) == envelope_of(pts@, i as nat),
            in_order((lo, hi)),
        decreases pts@.len() - i,
    {
        let p = pts[i];
        lo = Pt {
            x: if p.x < lo.x {
                p.x
            } else {
                lo.x
            },
            y: if p.y < lo.y {
                p.y
            } else {
                lo.y
            },
        };
        hi = Pt {
            x: if p.x > hi.x {
                p.x
            } else {
                hi.x
            },
            y: if p.y > hi.y {
                p.y
            } else {
                hi.y
            },
        };
        i += 1;
    }
    (lo, hi)
}

/// The footways of a graph, found by the rectangles that they lie in.
pub struct Footways {
    index: BoxIndex,
    /// The road of each rectangle of the index.
    roads: Vec<usize>,
}

impl Footways {
    /// The index holds a rectangle for each footway of the graph that has a point, and for
    /// nothing else.
    pub closed spec fn of(self, g: Graph) -> bool {
        &&& held(self.index).len() == self.roads@.len()
        &&& forall|k: int|
            0 <= k < self.roads@.len() ==> {
                let f = #[trigger] self.roads@[k];
                &&& f < g.roads@.len()
                &&& is_footway(g.roads@[f as int].tags@)
                &&& g.roads@[f as int].linestring@.len() > 0
                &&& held(self.index)[k] == envelope_of(
                    g.roads@[f as int].linestring@,
                    g.roads@[f as int].linestring@.len(),
                )
                &&& in_order(held(self.index)[k])
            }
        &&& forall|f: int|
            0 <= f < g.roads@.len() && is_footway((#[trigger] g.roads@[f]).tags@)
                && g.roads@[f].linestring@.len() > 0 ==> exists|k: int|
                0 <= k < self.roads@.len() && #[trigger] self.roads@[k] == f
    }

    /// Indexes the footways of a graph.
    pub fn new(g: &Graph) -> (footways: Footways)
        ensures
            footways.of(*g),
    {
        let mut boxes: Vec<(Pt, Pt)> = Vec::new();
        let mut roads: Vec<usize> = Vec::new();
        let mut f: usize = 0;
        while f < g.roads.len()
            invariant
                f <= g.roads@.len(),
                boxes@.len() == roads@.len(),
                forall|k: int|
                    0 <= k < roads@.len() ==> {
                        let q = #[trigger] roads@[k];
                        &&& q < f
                        &&& is_footway(g.roads@[q as int].tags@)
                        &&& g.roads@[q as int].linestring@.len() > 0
                        &&& boxes@[k] == envelope_of(
                            g.roads@[q as int].linestring@,
                            g.roads@[q as int].linestring@.len(),
                        )
                        &&& in_order(boxes@[k])
                    },
                forall|q: int|
                    0 <= q < f && is_footway((#[trigger] g.roads@[q]).tags@)
                        && g.roads@[q].linestring@.len() > 0 ==> exists|k: int|
                        0 <= k < roads@.len() && #[trigger] roads@[k] == q,
            decreases g.roads@.len() - f,
        {
            if g.roads[f].tags.is("highway", "footway") && g.roads[f].linestring.len() > 0 {
                let ghost before = roads@;
                boxes.push(envelope(&g.roads[f].linestring));
                roads.push(f);
                proof {
                    assert forall|q: int|
                        0 <= q < f + 1 && is_footway((#[trigger] g.roads@[q]).tags@)
                            && g.roads@[q].linestring@.len() > 0 implies exists|k: int|
                        0 <= k < roads@.len() && #[trigger] roads@[k] == q by {
                        if q < f {
                            let k = choose|k: int| 0 <= k < before.len() && #[trigger] before[k] == q;
                            assert(roads@[k] == q);
                        } else {
                            assert(roads@[roads@.len() - 1] == q);
                        }
                    }
                }
            }
            f += 1;
        }
        assert forall|k: int| 0 <= k < boxes@.len() implies in_order(#[trigger] boxes@[k]) by {
            let q = roads@[k];
        }
        let index = bulk_load(&boxes);
        Footways { index, roads }
    }

    /// Whether the line has a point in common with a footway.
    pub fn meet(&self, g: &Graph, line: Line) -> (yes: bool)
        requires
            self.of(*g),
        ensures
            yes == meets_a_footway(*g, line),
    {
        let ends = vec![line.start, line.end];
        assert(ends@ =~= seq![line.start, line.end]);
        let query = envelope(&ends);
        proof {
            assert forall|k: int| 0 <= k < held(self.index).len() implies in_order(
                #[trigger] held(self.index)[k],
            ) by {
                let f = self.roads@[k];
            }
            assert(self.roads.len() == self.roads@.len());
        }
        let hits = locate_in_envelope_intersecting(&self.index, query);
        let mut h: usize = 0;
        while h < hits.len()
            invariant
                self.of(*g),
                query == line_box(line),
                h <= hits@.len(),
                forall|k: usize| hits@.contains(k) <==> found_by(self.index, query, k as int),
                forall|j: int|
                    0 <= j < h ==> !meets_footway_at(*g, line, self.roads@[(#[trigger] hits@[j]) as int] as int),
            decreases hits@.len() - h,
        {
            let k = hits[h];
            assert(hits@.contains(k));
            assert(found_by(self.index, query, k as int));
            let f = self.roads[k];
            if meets_polyline(line, &g.roads[f].linestring) {
                assert(meets_footway_at(*g, line, f as int));
                return true;
            }
            h += 1;
        }
        proof {
            assert forall|f: int| 0 <= f < g.roads@.len() implies !#[trigger] meets_footway_at(
                *g,
                line,
                f,
            ) by {
                if meets_footway_at(*g, line, f) {
                    let k = choose|k: int| 0 <= k < self.roads@.len() && #[trigger] self.roads@[k] == f;
                    assert(self.roads.len() == self.roads@.len());
                    assert(held(self.index)[k] == envelope_of(
                        g.roads@[f].linestring@,
                        g.roads@[f].linestring@.len(),
                    ));
                    assert(found_by(self.index, query, (k as usize) as int));
                    assert(hits@.contains(k as usize));
                    let j = choose|j: int| 0 <= j < hits@.len() && hits@[j] == k as usize;
                    assert(!meets_footway_at(*g, line, self.roads@[hits@[j] as int] as int));
                }
            }
        }
        false
    }
}

fn runs_beside_footway(g: &Graph, footways: &Footways, r: usize) -> (yes: bool)
    requires
        r < g.roads@.len(),
        footways.of(*g),
    ensures
        yes == beside_footway(*g, r as int),
{
    let lines = make_perpendicular_offsets(&g.roads[r].linestring, WALK_EVERY, PROJECT_AWAY);
    let mut i: usize = 0;
    while i < lines.len()
        invariant
            r < g.roads@.len(),
            footways.of(*g),
            lines@ == offsets(g.roads@[r as int].linestring@, WALK_EVERY as nat, PROJECT_AWAY as int),
            i <= lines@.len(),
            forall|j: int| 0 <= j < i ==> !meets_a_footway(*g, #[trigger] lines@[j]),
        decreases lines@.len() - i,
    {
        if footways.meet(g, lines[i]) {
            return true;
        }
        i += 1;
    }
    false
}

fn is_to_check(tags: &Tags, duplicates_only: bool) -> (yes: bool)
    ensures
        yes == to_check(tags@, duplicates_only),
{
    if tags.is("highway", "footway") || has_separate_sidewalk(tags) {
        return false;
    }
    if duplicates_only {
        let sides = vec!["left", "right", "both"];
        assert(sides@ =~= seq!["left", "right", "both"]);
        return tags.is_any("sidewalk", sides);
    }
    true
}

/// Finds the roads beside which a footway runs, though they are not tagged as having their
/// sidewalks mapped apart: a line is laid across each such road every 25 metres, reaching 15
/// metres to either side, and the road is noted where one of these lines meets a footway. The
/// footways near a line are found by the rectangles that they lie in.
/// Where only doubles are asked for, only roads that are tagged as having a sidewalk are
/// looked at.
pub fn find_separate_sidewalks(map: &MapModel, duplicates_only: bool) -> (found: Vec<RoadID>)
    ensures
        found@ == separate_sidewalks(map.graph, duplicates_only, map.graph.roads@.len()),
{
    let g = &map.graph;
    let footways = Footways::new(g);
    let mut found: Vec<RoadID> = Vec::new();
    let mut r: usize = 0;
    while r < g.roads.len()
        invariant
            footways.of(*g),
            r <= g.roads@.len(),
            found@ == separate_sidewalks(*g, duplicates_only, r as nat),
        decreases g.roads@.len() - r,
    {
        if is_to_check(&g.roads[r].tags, duplicates_only) && runs_beside_footway(g, &footways, r) {
            found.push(g.roads[r].id);
        }
        r += 1;
    }
    found
}

} // verus!
