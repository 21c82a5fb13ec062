//! The walking network: roads that meet at intersections, each known by a dense index.

use crate::geometry::Pt;
use crate::osm::{NodeID, WayID};
use crate::profiles::RoadKind;
use crate::tags::Tags;
use vstd::prelude::*;

verus! {

/// The index of a road in its graph.
#[derive(Clone, Copy, Debug, PartialEq, Eq, Structural, Hash)]
pub struct RoadID(pub usize);

/// The index of an intersection in its graph.
#[derive(Clone, Copy, Debug, PartialEq, Eq, Structural, Hash)]
pub struct IntersectionID(pub usize);

/// The directions in which a road may be walked.
#[derive(Clone, Copy, Debug, PartialEq, Eq, Structural)]
pub enum Direction {
    Neither,
    Forward,
    Backward,
    Both,
}

/// The two ways of walking that routes are computed for.
#[derive(Clone, Copy, Debug, PartialEq, Eq, Structural)]
pub enum Walker {
    /// Crosses severances at crossings only.
    Walking,
    /// Walks along and across severances too.
    CrossAnywhere,
}

/// Whether and at what cost one kind of walker takes a road.
#[derive(Clone, Copy, Debug, PartialEq, Eq, Structural)]
pub struct Travel {
    pub access: Direction,
    /// The time that the road takes, in milliseconds.
    pub cost: u64,
}

/// A stretch of a way between two intersections.
#[derive(Debug)]
pub struct Road {
    pub id: RoadID,
    pub src_i: IntersectionID,
    pub dst_i: IntersectionID,
    pub way: WayID,
    pub node1: NodeID,
    pub node2: NodeID,
    /// The nodes of the way along this road, the two ends included.
    pub node_ids: Vec<NodeID>,
    pub linestring: Vec<Pt>,
    pub tags: Tags,
    pub kind: RoadKind,
    pub walking: Travel,
    pub cross_anywhere: Travel,
}

/// A point at which roads meet or end.
#[derive(Debug)]
pub struct Intersection {
    pub id: IntersectionID,
    pub point: Pt,
    pub node: NodeID,
    pub roads: Vec<RoadID>,
}

/// Roads and intersections, each at the index that its identifier names.
#[derive(Debug)]
pub struct Graph {
    pub roads: Vec<Road>,
    pub intersections: Vec<Intersection>,
}

impl Road {
    /// Whether and at what cost `walker` takes this road.
    pub open spec fn travel_of(self, walker: Walker) -> Travel {
        match walker {
            Walker::Walking => self.walking,
            Walker::CrossAnywhere => self.cross_anywhere,
        }
    }

    /// Whether and at what cost `walker` takes this road.
    pub fn travel(&self, walker: Walker) -> (t: Travel)
        ensures
            t == self.travel_of(walker),
    {
        match walker {
            Walker::Walking => self.walking,
            Walker::CrossAnywhere => self.cross_anywhere,
        }
    }

    /// Whether `i` is one of the two ends of this road.
    pub open spec fn touches(self, i: int) -> bool {
        self.src_i.0 == i || self.dst_i.0 == i
    }
}

impl Graph {
    /// The road `r` is where its identifier says, ends at two intersections of the graph, and
    /// its geometry runs from the one to the other.
    pub open spec fn road_wf(self, r: int) -> bool {
        let road = self.roads@[r];
        &&& road.id.0 == r
        &&& road.src_i.0 < self.intersections@.len()
        &&& road.dst_i.0 < self.intersections@.len()
        &&& road.linestring@.len() >= 2
        &&& road.linestring@[0] == self.intersections@[road.src_i.0 as int].point
        &&& road.linestring@.last() == self.intersections@[road.dst_i.0 as int].point
        &&& self.intersections@[road.src_i.0 as int].roads@.contains(road.id)
        &&& self.intersections@[road.dst_i.0 as int].roads@.contains(road.id)
    }

    /// The intersection `i` is where its identifier says, and lists, each once, roads of the
    /// graph that end at it.
    pub open spec fn intersection_wf(self, i: int) -> bool {
        let intersection = self.intersections@[i];
        &&& intersection.id.0 == i
        &&& intersection.roads@.no_duplicates()
        &&& forall|k: int|
            0 <= k < intersection.roads@.len() ==> {
                &&& (#[trigger] intersection.roads@[k]).0 < self.roads@.len()
                &&& self.roads@[intersection.roads@[k].0 as int].touches(i)
            }
    }

    /// The graph is consistent: every road runs between two intersections that list it, and the
    /// roads that an intersection lists are exactly those that end at it.
    pub open spec fn wf(self) -> bool {
        &&& forall|r: int| 0 <= r < self.roads@.len() ==> #[trigger] self.road_wf(r)
        &&& forall|i: int| 0 <= i < self.intersections@.len() ==> #[trigger] self.intersection_wf(i)
    }

    /// The kind of the road that `id` names.
    pub open spec fn kind_of(self, id: RoadID) -> RoadKind {
        self.roads@[id.0 as int].kind
    }

    /// A road of kind `kind` ends at the intersection `i`.
    pub open spec fn meets(self, i: int, kind: RoadKind) -> bool {
        exists|k: int|
            0 <= k < self.intersections@[i].roads@.len() && self.kind_of(
                #[trigger] self.intersections@[i].roads@[k],
            ) == kind
    }

    /// A footway or a crossing ends at the intersection `i`.
    pub open spec fn meets_walkway(self, i: int) -> bool {
        exists|k: int|
            0 <= k < self.intersections@[i].roads@.len() && !(self.kind_of(
                #[trigger] self.intersections@[i].roads@[k],
            ) is Severance) && !(self.kind_of(self.intersections@[i].roads@[k]) is WithTraffic)
    }

    /// How many roads the graph has.
    pub fn num_roads(&self) -> (n: usize)
        ensures
            n == self.roads@.len(),
    {
        self.roads.len()
    }

    /// How many intersections the graph has.
    pub fn num_intersections(&self) -> (n: usize)
        ensures
            n == self.intersections@.len(),
    {
        self.intersections.len()
    }

    /// A graph without roads or intersections.
    pub fn empty() -> (g: Graph)
        ensures
            g.wf(),
            g.roads@.len() == 0,
            g.intersections@.len() == 0,
    {
        Graph { roads: Vec::new(), intersections: Vec::new() }
    }
}

/// Two roads differ in nothing but the intersections at which they end.
pub open spec fn same_but_ends(a: Road, b: Road) -> bool {
    &&& a.id == b.id
    &&& a.way == b.way
    &&& a.node1 == b.node1
    &&& a.node2 == b.node2
    &&& a.node_ids == b.node_ids
    &&& a.linestring == b.linestring
    &&& a.tags == b.tags
    &&& a.kind == b.kind
    &&& a.walking == b.walking
    &&& a.cross_anywhere == b.cross_anywhere
}

/// The intersection `i` comes before the intersection `j` in the order in which roads first
/// end at them: the first road of `i` comes before that of `j`, or one road is the first of
/// both, with `i` as its source and `j` as its destination.
pub open spec fn earlier(g: Graph, i: int, j: int) -> bool {
    let first_i = g.intersections@[i].roads@[0].0 as int;
    let first_j = g.intersections@[j].roads@[0].0 as int;
    first_i < first_j || (first_i == first_j && g.roads@[first_i].src_i.0 == i && g.roads@[first_i].dst_i.0
        == j)
}

/// Whether the list names the road.
pub fn lists_road(list: &Vec<RoadID>, id: RoadID) -> (found: bool)
    ensures
        found == list@.contains(id),
{
    let mut k: usize = 0;
    while k < list.len()
        invariant
            k <= list@.len(),
            forall|j: int| 0 <= j < k ==> list@[j] != id,
        decreases list@.len() - k,
    {
        if list[k].0 == id.0 {
            return true;
        }
        k += 1;
    }
    false
}

/// Whether the list names no road twice.
pub fn all_distinct(list: &Vec<RoadID>) -> (distinct: bool)
    ensures
        distinct == list@.no_duplicates(),
{
    let mut a: usize = 0;
    while a < list.len()
        invariant
            a <= list@.len(),
            forall|i: int, j: int| 0 <= i < a && i < j < list@.len() ==> list@[i] != list@[j],
        decreases list@.len() - a,
    {
        let mut b: usize = a + 1;
        while b < list.len()
            invariant
                a < b <= list@.len(),
                forall|j: int| a < j < b ==> list@[a as int] != list@[j],
            decreases list@.len() - b,
        {
            if list[a].0 == list[b].0 {
                assert(list@[a as int] == list@[b as int]);
                return false;
            }
            b += 1;
        }
        a += 1;
    }
    assert forall|i: int, j: int| 0 <= i < list@.len() && 0 <= j < list@.len() && i != j implies list@[i]
        != list@[j] by {
        if i < j {
        } else {
            assert(list@[j] != list@[i]);
        }
    }
    true
}

impl Graph {
    fn road_is_wf(&self, r: usize) -> (ok: bool)
        requires
            r < self.roads@.len(),
        ensures
            ok == self.road_wf(r as int),
    {
        let road = &self.roads[r];
        let n = self.intersections.len();
        if road.id.0 != r || road.src_i.0 >= n || road.dst_i.0 >= n || road.linestring.len() < 2 {
            return false;
        }
        let first = road.linestring[0];
        let last = road.linestring[road.linestring.len() - 1];
        let src = &self.intersections[road.src_i.0];
        let dst = &self.intersections[road.dst_i.0];
        first.x == src.point.x && first.y == src.point.y && last.x == dst.point.x && last.y
            == dst.point.y && lists_road(&src.roads, road.id) && lists_road(&dst.roads, road.id)
    }

    fn intersection_is_wf(&self, i: usize) -> (ok: bool)
        requires
            i < self.intersections@.len(),
        ensures
            ok == self.intersection_wf(i as int),
    {
        let intersection = &self.intersections[i];
        if intersection.id.0 != i || !all_distinct(&intersection.roads) {
            return false;
        }
        let mut k: usize = 0;
        while k < intersection.roads.len()
            invariant
                i < self.intersections@.len(),
                *intersection == self.intersections@[i as int],
                k <= intersection.roads@.len(),
                forall|j: int|
                    0 <= j < k ==> {
                        &&& (#[trigger] intersection.roads@[j]).0 < self.roads@.len()
                        &&& self.roads@[intersection.roads@[j].0 as int].touches(i as int)
                    },
            decreases intersection.roads@.len() - k,
        {
            let id = intersection.roads[k];
            if id.0 >= self.roads.len() {
                return false;
            }
            if self.roads[id.0].src_i.0 != i && self.roads[id.0].dst_i.0 != i {
                return false;
            }
            k += 1;
        }
        true
    }

    /// Whether the graph is consistent.
    pub fn is_consistent(&self) -> (ok: bool)
        ensures
            ok == self.wf(),
    {
        let mut r: usize = 0;
        while r < self.roads.len()
            invariant
                r <= self.roads@.len(),
                forall|j: int| 0 <= j < r ==> #[trigger] self.road_wf(j),
            decreases self.roads@.len() - r,
        {
            if !self.road_is_wf(r) {
                return false;
            }
            r += 1;
        }
        let mut i: usize = 0;
        while i < self.intersections.len()
            invariant
                i <= self.intersections@.len(),
                forall|j: int| 0 <= j < self.roads@.len() ==> #[trigger] self.road_wf(j),
                forall|j: int| 0 <= j < i ==> #[trigger] self.intersection_wf(j),
            decreases self.intersections@.len() - i,
        {
            if !self.intersection_is_wf(i) {
                return false;
            }
            i += 1;
        }
        true
    }
}

/// In a consistent graph the first and the last point of every road are the points of the
/// intersections that the road names as its ends.
pub proof fn lemma_road_ends_at_intersections(g: Graph, r: int)
    requires
        g.wf(),
        0 <= r < g.roads@.len(),
    ensures
        g.roads@[r].linestring@.first() == g.intersections@[g.roads@[r].src_i.0 as int].point,
        g.roads@[r].linestring@.last() == g.intersections@[g.roads@[r].dst_i.0 as int].point,
{
    assert(g.road_wf(r));
}

/// In a consistent graph an intersection lists a road exactly when the road ends at it.
pub proof fn lemma_intersection_lists_its_roads(g: Graph, i: int, r: int)
    requires
        g.wf(),
        0 <= i < g.intersections@.len(),
        0 <= r < g.roads@.len(),
    ensures
        g.intersections@[i].roads@.contains(RoadID(r as usize)) <==> g.roads@[r].touches(i),
{
    assert(g.road_wf(r));
    assert(g.intersection_wf(i));
    assert(g.roads@[r].id == RoadID(r as usize));
    if g.intersections@[i].roads@.contains(RoadID(r as usize)) {
        let k = choose|k: int|
            0 <= k < g.intersections@[i].roads@.len() && g.intersections@[i].roads@[k] == RoadID(
                r as usize,
            );
        assert(g.roads@[g.intersections@[i].roads@[k].0 as int].touches(i));
    }
}

} // verus!
