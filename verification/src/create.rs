//! Making a map model out of the elements of an OSM extract.

use crate::builder::{build_graph, collect_points, graph_built, nodes_of, points_of, tags_of};
use crate::error::Error;
use crate::geometry::{copy_points, Pt};
use crate::graph::{Direction, Graph, Road, RoadID, Travel, Walker};
use crate::mercator::{bounding_box, bounds_of, Mercator};
use crate::model::{Crossing, MapModel};
use crate::osm::NodeID;
use crate::osm_reader::{decoded_view, parse, parsed_as, Element, RawElement};
use crate::profiles::{classify, crossing_kind, CrossingKind, Profile, RoadKind};
use crate::router::{snap_to_road, snaps_to, SnappedPosition};
use crate::settings::{road_cost, total_cost, Settings};
use crate::severance::{post_process_graph, post_processed};
use crate::tags::{tag_has, tag_is, Tags};
use vstd::prelude::*;

verus! {

/// The road `b` is the road `a` carried into the planar frame.
pub open spec fn road_projected(a: Road, b: Road, frame: Mercator) -> bool {
    &&& b.id == a.id
    &&& b.src_i == a.src_i
    &&& b.dst_i == a.dst_i
    &&& b.way == a.way
    &&& b.node1 == a.node1
    &&& b.node2 == a.node2
    &&& b.node_ids == a.node_ids
    &&& b.tags == a.tags
    &&& b.kind == a.kind
    &&& b.walking == a.walking
    &&& b.cross_anywhere == a.cross_anywhere
    &&& b.linestring@.len() == a.linestring@.len()
    &&& forall|j: int|
        0 <= j < a.linestring@.len() ==> #[trigger] b.linestring@[j] == frame.to_mercator(
            a.linestring@[j],
        )
}

/// The graph `new` is the graph `old` carried into the planar frame.
pub open spec fn projected(old: Graph, new: Graph, frame: Mercator) -> bool {
    &&& new.roads@.len() == old.roads@.len()
    &&& new.intersections@.len() == old.intersections@.len()
    &&& forall|r: int|
        0 <= r < old.roads@.len() ==> road_projected(old.roads@[r], #[trigger] new.roads@[r], frame)
    &&& forall|i: int|
        0 <= i < old.intersections@.len() ==> {
            &&& (#[trigger] new.intersections@[i]).id == old.intersections@[i].id
            &&& new.intersections@[i].node == old.intersections@[i].node
            &&& new.intersections@[i].roads == old.intersections@[i].roads
            &&& new.intersections@[i].point == frame.to_mercator(old.intersections@[i].point)
        }
}

/// Carrying a consistent graph into the planar frame leaves it consistent.
pub proof fn lemma_projected_wf(old: Graph, new: Graph, frame: Mercator)
    requires
        old.wf(),
        projected(old, new, frame),
    ensures
        new.wf(),
{
    assert forall|r: int| 0 <= r < new.roads@.len() implies #[trigger] new.road_wf(r) by {
        assert(old.road_wf(r));
        assert(road_projected(old.roads@[r], new.roads@[r], frame));
        let n = old.roads@[r].linestring@.len() as int;
        assert(new.roads@[r].linestring@[0] == frame.to_mercator(old.roads@[r].linestring@[0]));
        assert(new.roads@[r].linestring@[n - 1] == frame.to_mercator(
            old.roads@[r].linestring@[n - 1],
        ));
    }
    assert forall|i: int| 0 <= i < new.intersections@.len() implies #[trigger] new.intersection_wf(
        i,
    ) by {
        assert(old.intersection_wf(i));
        let roads = new.intersections@[i].roads@;
        assert forall|k: int| 0 <= k < roads.len() implies {
            &&& (#[trigger] roads[k]).0 < new.roads@.len()
            &&& new.roads@[roads[k].0 as int].touches(i)
        } by {
            assert(road_projected(
                old.roads@[roads[k].0 as int],
                new.roads@[roads[k].0 as int],
                frame,
            ));
        }
    }
}

/// Carries every point of the graph into the planar frame.
pub fn project(graph: &mut Graph, frame: &Mercator)
    requires
        old(graph).wf(),
        frame.wf(),
    ensures
        projected(*old(graph), *final(graph), *frame),
        final(graph).wf(),
{
    let ghost g0 = *graph;
    let mut r: usize = 0;
    while r < graph.roads.len()
        invariant
            frame.wf(),
            r <= graph.roads@.len(),
            graph.roads@.len() == g0.roads@.len(),
            graph.intersections == g0.intersections,
            forall|j: int|
                0 <= j < r ==> road_projected(g0.roads@[j], #[trigger] graph.roads@[j], *frame),
            forall|j: int| r <= j < graph.roads@.len() ==> graph.roads@[j] == g0.roads@[j],
        decreases graph.roads@.len() - r,
    {
        frame.to_mercator_in_place(&mut graph.roads[r].linestring);
        r += 1;
    }
    let mut i: usize = 0;
    while i < graph.intersections.len()
        invariant
            frame.wf(),
            i <= graph.intersections@.len(),
            graph.roads@.len() == g0.roads@.len(),
            graph.intersections@.len() == g0.intersections@.len(),
            forall|j: int|
                0 <= j < g0.roads@.len() ==> road_projected(
                    g0.roads@[j],
                    #[trigger] graph.roads@[j],
                    *frame,
                ),
            forall|j: int|
                0 <= j < i ==> {
                    &&& (#[trigger] graph.intersections@[j]).id == g0.intersections@[j].id
                    &&& graph.intersections@[j].node == g0.intersections@[j].node
                    &&& graph.intersections@[j].roads == g0.intersections@[j].roads
                    &&& graph.intersections@[j].point == frame.to_mercator(
                        g0.intersections@[j].point,
                    )
                },
            forall|j: int|
                i <= j < graph.intersections@.len() ==> graph.intersections@[j]
                    == g0.intersections@[j],
        decreases graph.intersections@.len() - i,
    {
        let p = frame.pt_to_mercator(graph.intersections[i].point);
        graph.intersections[i].point = p;
        i += 1;
    }
    proof {
        lemma_projected_wf(g0, *graph, *frame);
    }
}

/// What the walker who obeys crossings makes of a road of kind `kind`: nothing of a way that
/// is left out or of a severance; of any other road, what it costs under the settings that fit
/// the United Kingdom.
pub open spec fn walking_travel(kind: Option<RoadKind>, line: Seq<Pt>) -> Travel {
    match kind {
        None => Travel { access: Direction::Neither, cost: 0 },
        Some(RoadKind::Severance) => Travel { access: Direction::Neither, cost: 0 },
        Some(k) => Travel { access: Direction::Both, cost: total_cost(line, k, uk_settings()) },
    }
}

/// What the walker who crosses anywhere makes of a road of kind `kind`: nothing of a way that
/// is left out; of any road, what it costs under the settings that fit the United Kingdom.
pub open spec fn cross_anywhere_travel(kind: Option<RoadKind>, line: Seq<Pt>) -> Travel {
    match kind {
        None => Travel { access: Direction::Neither, cost: 0 },
        Some(k) => Travel { access: Direction::Both, cost: total_cost(line, k, uk_settings()) },
    }
}

/// The settings that fit the United Kingdom.
pub open spec fn uk_settings() -> Settings {
    Settings {
        obey_crossings: true,
        base_speed_mph: 3000,
        delay_signalized: 30000,
        delay_zebra: 0,
        delay_other: 10000,
    }
}

/// Whether and at what cost the walker who obeys crossings takes a way with these tags and
/// points.
pub fn walking_profile(profile: Profile, tags: &Tags, linestring: &Vec<Pt>) -> (travel: Travel)
    ensures
        travel == walking_travel(classify(profile, tags@), linestring@),
{
    match profile.classify(tags) {
        None => Travel { access: Direction::Neither, cost: 0 },
        Some(RoadKind::Severance) => Travel { access: Direction::Neither, cost: 0 },
        Some(kind) => Travel {
            access: Direction::Both,
            cost: road_cost(linestring, kind, &Settings::uk()),
        },
    }
}

/// Whether and at what cost the walker who crosses anywhere takes a way with these tags and
/// points.
pub fn cross_anywhere(profile: Profile, tags: &Tags, linestring: &Vec<Pt>) -> (travel: Travel)
    ensures
        travel == cross_anywhere_travel(classify(profile, tags@), linestring@),
{
    match profile.classify(tags) {
        None => Travel { access: Direction::Neither, cost: 0 },
        Some(kind) => Travel {
            access: Direction::Both,
            cost: road_cost(linestring, kind, &Settings::uk()),
        },
    }
}

/// The road `b` is the road `a` with what the two walkers make of it under `profile`.
pub open spec fn road_profiled(a: Road, b: Road, profile: Profile) -> bool {
    b == (Road {
        walking: walking_travel(classify(profile, a.tags@), a.linestring@),
        cross_anywhere: cross_anywhere_travel(classify(profile, a.tags@), a.linestring@),
        ..a
    })
}

/// The graph `new` is the graph `old` with what the two walkers make of each road.
pub open spec fn profiled(old: Graph, new: Graph, profile: Profile) -> bool {
    &&& new.intersections == old.intersections
    &&& new.roads@.len() == old.roads@.len()
    &&& forall|r: int|
        0 <= r < old.roads@.len() ==> road_profiled(old.roads@[r], #[trigger] new.roads@[r], profile)
}

/// Works out for each road whether and at what cost the two walkers take it.
pub fn apply_profiles(graph: &mut Graph, profile: Profile)
    ensures
        profiled(*old(graph), *final(graph), profile),
{
    let ghost g0 = *graph;
    let mut r: usize = 0;
    while r < graph.roads.len()
        invariant
            r <= graph.roads@.len(),
            graph.roads@.len() == g0.roads@.len(),
            graph.intersections == g0.intersections,
            forall|j: int|
                0 <= j < r ==> road_profiled(g0.roads@[j], #[trigger] graph.roads@[j], profile),
            forall|j: int| r <= j < graph.roads@.len() ==> graph.roads@[j] == g0.roads@[j],
        decreases graph.roads@.len() - r,
    {
        let walking = walking_profile(profile, &graph.roads[r].tags, &graph.roads[r].linestring);
        let anywhere = cross_anywhere(profile, &graph.roads[r].tags, &graph.roads[r].linestring);
        graph.roads[r].walking = walking;
        graph.roads[r].cross_anywhere = anywhere;
        r += 1;
    }
}

/// The tags are those of a node at which pedestrians are let across.
pub open spec fn crossing_candidate(tags: Map<Seq<char>, Seq<char>>) -> bool {
    tag_is(tags, "highway"@, "crossing"@) || (tag_is(tags, "highway"@, "traffic_signals"@) && tag_is(
        tags,
        "crossing"@,
        "traffic_signals"@,
    ))
}

/// What is scraped from an extract beside its graph: the nodes that may be crossings, with no
/// roads tied to them yet, and the outlines of the buildings.
#[derive(Debug)]
pub struct CrossingsAndBuildings {
    pub crossings: Vec<Crossing>,
    pub buildings: Vec<Vec<Pt>>,
}

/// The crossing is what a node with this identifier, place and tags is scraped as.
pub open spec fn scraped_crossing(c: Crossing, id: NodeID, pt: Pt, tags: Map<Seq<char>, Seq<char>>) -> bool {
    &&& c.osm_id == id
    &&& c.point == pt
    &&& c.tags@ == tags
    &&& c.kind == crossing_kind(tags)
    &&& c.roads@.len() == 0
}

/// The outline of a building along `nodes`: where the nodes lie, and the first point once more
/// at the end where the nodes do not close the outline themselves.
pub open spec fn outline_of(nodes: Seq<NodeID>, points: Map<i64, Pt>) -> Seq<Pt> {
    let open = Seq::new(nodes.len(), |j: int| points[nodes[j].0]);
    if nodes.len() > 0 && open.last() != open[0] {
        open.push(open[0])
    } else {
        open
    }
}

impl CrossingsAndBuildings {
    /// Nothing scraped yet.
    pub fn new() -> (scraped: CrossingsAndBuildings)
        ensures
            scraped.crossings@.len() == 0,
            scraped.buildings@.len() == 0,
    {
        CrossingsAndBuildings { crossings: Vec::new(), buildings: Vec::new() }
    }

    /// Takes note of a node where its tags make it a crossing.
    pub fn node(&mut self, id: NodeID, pt: Pt, tags: &Tags)
        ensures
            final(self).buildings == old(self).buildings,
            crossing_candidate(tags@) ==> final(self).crossings@.len() == old(self).crossings@.len()
                + 1 && final(self).crossings@.drop_last() == old(self).crossings@
                && scraped_crossing(final(self).crossings@.last(), id, pt, tags@),
            !crossing_candidate(tags@) ==> final(self).crossings == old(self).crossings,
    {
        if tags.is("highway", "crossing") || (tags.is("highway", "traffic_signals") && tags.is(
            "crossing",
            "traffic_signals",
        )) {
            self.crossings.push(
                Crossing {
                    osm_id: id,
                    point: pt,
                    roads: Vec::new(),
                    tags: tags.copy(),
                    kind: CrossingKind::from_tags(tags),
                },
            );
            assert(self.crossings@.drop_last() =~= old(self).crossings@);
        }
    }

    /// Takes note of a way where it is tagged as a building. Fails with `InputMalformed` where
    /// such a way runs through a node that `node_mapping` does not hold.
    pub fn way(
        &mut self,
        node_ids: &Vec<NodeID>,
        node_mapping: &std::collections::HashMap<i64, Pt>,
        tags: &Tags,
    ) -> (done: Result<(), Error>)
        ensures
            final(self).crossings == old(self).crossings,
            !tag_has(tags@, "building"@) ==> done is Ok && final(self).buildings == old(
                self,
            ).buildings,
            tag_has(tags@, "building"@) ==> match done {
                Ok(_) => {
                    &&& forall|j: int|
                        0 <= j < node_ids@.len() ==> node_mapping@.contains_key(
                            (#[trigger] node_ids@[j]).0,
                        )
                    &&& final(self).buildings@.len() == old(self).buildings@.len() + 1
                    &&& final(self).buildings@.drop_last() == old(self).buildings@
                    &&& final(self).buildings@.last()@ == outline_of(node_ids@, node_mapping@)
                },
                Err(e) => {
                    &&& e == Error::InputMalformed
                    &&& final(self).buildings == old(self).buildings
                    &&& exists|j: int|
                        0 <= j < node_ids@.len() && !node_mapping@.contains_key(
                            (#[trigger] node_ids@[j]).0,
                        )
                },
            },
    {
        broadcast use vstd::std_specs::hash::group_hash_axioms;

        if !tags.has("building") {
            return Ok(());
        }
        let mut outline: Vec<Pt> = Vec::new();
        let mut j: usize = 0;
        while j < node_ids.len()
            invariant
                j <= node_ids@.len(),
                tag_has(tags@, "building"@),
                *self == *old(self),
                forall|k: int|
                    0 <= k < j ==> node_mapping@.contains_key((#[trigger] node_ids@[k]).0),
                outline@ == Seq::new(j as nat, |k: int| node_mapping@[node_ids@[k].0]),
            decreases node_ids@.len() - j,
        {
            match node_mapping.get(&node_ids[j].0) {
                Some(p) => {
                    outline.push(*p);
                    assert(outline@ =~= Seq::new((j + 1) as nat, |k: int| node_mapping@[node_ids@[k].0]));
                },
                None => {
                    return Err(Error::InputMalformed);
                },
            }
            j += 1;
        }
        if outline.len() > 0 {
            let first = outline[0];
            let last = outline[outline.len() - 1];
            if first.x != last.x || first.y != last.y {
                outline.push(first);
            }
        }
        assert(outline@ =~= outline_of(node_ids@, node_mapping@));
        self.buildings.push(outline);
        assert(self.buildings@.drop_last() =~= old(self).buildings@);
        Ok(())
    }

    /// Takes note of a relation: of nothing yet.
    pub fn relation(&mut self)
        ensures
            *final(self) == *old(self),
    {
    }
}

/// The road `r` is a severance that runs through the node.
pub open spec fn on_severance(g: Graph, node: NodeID, r: int) -> bool {
    g.roads@[r].kind == RoadKind::Severance && g.roads@[r].node_ids@.contains(node)
}

/// The severances among the first `n` roads that run through the node, in their order.
pub open spec fn severances_at(g: Graph, node: NodeID, n: nat) -> Seq<RoadID>
    decreases n,
{
    if n == 0 {
        Seq::empty()
    } else {
        let before = severances_at(g, node, (n - 1) as nat);
        if on_severance(g, node, n - 1) {
            before.push(RoadID((n - 1) as usize))
        } else {
            before
        }
    }
}

/// The places among the first `n` candidates of those that lie on a severance.
pub open spec fn retained(g: Graph, candidates: Seq<Crossing>, n: nat) -> Seq<int>
    decreases n,
{
    if n == 0 {
        Seq::empty()
    } else {
        let before = retained(g, candidates, (n - 1) as nat);
        if severances_at(g, candidates[n - 1].osm_id, g.roads@.len()).len() > 0 {
            before.push(n - 1)
        } else {
            before
        }
    }
}

/// The crossing `after` is the candidate `before` tied to the severances through its node.
pub open spec fn tied(g: Graph, before: Crossing, after: Crossing) -> bool {
    &&& after.osm_id == before.osm_id
    &&& after.point == before.point
    &&& after.tags@ == before.tags@
    &&& after.kind == before.kind
    &&& after.roads@ == severances_at(g, before.osm_id, g.roads@.len())
}

/// The crossings are the candidates that lie on a severance, each tied to its severances.
pub open spec fn crossings_attached(g: Graph, candidates: Seq<Crossing>, crossings: Seq<Crossing>) -> bool {
    let which = retained(g, candidates, candidates.len());
    &&& crossings.len() == which.len()
    &&& forall|k: int|
        0 <= k < which.len() ==> tied(g, candidates[which[k]], #[trigger] crossings[k])
}

/// The severances through a node are roads of the graph, each once and in rising order, and
/// they are all the severances that run through the node.
pub proof fn lemma_severances_at(g: Graph, node: NodeID, n: nat)
    requires
        n <= g.roads@.len(),
    ensures
        severances_at(g, node, n).no_duplicates(),
        forall|k: int|
            0 <= k < severances_at(g, node, n).len() ==> (#[trigger] severances_at(g, node, n)[k]).0
                < n && on_severance(g, node, severances_at(g, node, n)[k].0 as int),
        forall|r: int|
            0 <= r < n && on_severance(g, node, r) ==> severances_at(g, node, n).contains(
                RoadID(r as usize),
            ),
    decreases n,
{
    assert(g.roads.len() == g.roads@.len());
    if n > 0 {
        lemma_severances_at(g, node, (n - 1) as nat);
        let before = severances_at(g, node, (n - 1) as nat);
        let now = severances_at(g, node, n);
        if on_severance(g, node, n - 1) {
            assert forall|a: int, b: int| 0 <= a < now.len() && 0 <= b < now.len() && a != b implies now[a]
                != now[b] by {
                if a < before.len() {
                    assert(before[a].0 < n - 1);
                }
                if b < before.len() {
                    assert(before[b].0 < n - 1);
                }
            }
        }
        assert forall|r: int| 0 <= r < n && on_severance(g, node, r) implies now.contains(
            RoadID(r as usize),
        ) by {
            if r < n - 1 {
                let k = choose|k: int| 0 <= k < before.len() && before[k] == RoadID(r as usize);
                assert(now[k] == RoadID(r as usize));
            } else {
                assert(now[now.len() - 1] == RoadID(r as usize));
            }
        }
    }
}

/// A crossing that is tied to the severances through its node lies on a severance and on
/// nothing else, if it is tied to any road at all.
pub proof fn lemma_tied_crossing_wf(g: Graph, before: Crossing, after: Crossing)
    requires
        tied(g, before, after),
        after.roads@.len() > 0,
    ensures
        crate::model::crossing_wf(g, after),
{
    lemma_severances_at(g, before.osm_id, g.roads@.len());
}

/// A candidate that is not retained lies on no severance.
pub proof fn lemma_dropped_off_severances(g: Graph, candidates: Seq<Crossing>, c: int, r: int)
    requires
        0 <= c < candidates.len(),
        0 <= r < g.roads@.len(),
        !retained(g, candidates, candidates.len()).contains(c),
    ensures
        !on_severance(g, candidates[c].osm_id, r),
{
    lemma_retained(g, candidates, candidates.len(), c);
    lemma_severances_at(g, candidates[c].osm_id, g.roads@.len());
    if on_severance(g, candidates[c].osm_id, r) {
        assert(severances_at(g, candidates[c].osm_id, g.roads@.len()).contains(RoadID(r as usize)));
    }
}

/// A candidate is retained exactly when a severance runs through its node.
proof fn lemma_retained(g: Graph, candidates: Seq<Crossing>, n: nat, c: int)
    requires
        0 <= c < n <= candidates.len(),
    ensures
        retained(g, candidates, n).contains(c) <==> severances_at(
            g,
            candidates[c].osm_id,
            g.roads@.len(),
        ).len() > 0,
        forall|k: int|
            0 <= k < retained(g, candidates, n).len() ==> 0 <= #[trigger] retained(
                g,
                candidates,
                n,
            )[k] < n,
    decreases n,
{
    let now = retained(g, candidates, n);
    let before = retained(g, candidates, (n - 1) as nat);
    if c < n - 1 {
        lemma_retained(g, candidates, (n - 1) as nat, c);
        if before.contains(c) {
            let k = choose|k: int| 0 <= k < before.len() && before[k] == c;
            assert(now[k] == c);
        }
        if now.contains(c) {
            let k = choose|k: int| 0 <= k < now.len() && now[k] == c;
            assert(before[k] == c);
        }
    } else {
        if n > 1 {
            lemma_retained(g, candidates, (n - 1) as nat, 0);
        }
        if severances_at(g, candidates[c].osm_id, g.roads@.len()).len() > 0 {
            assert(now[now.len() - 1] == c);
        } else if now.contains(c) {
            let k = choose|k: int| 0 <= k < now.len() && now[k] == c;
            assert(before[k] == c);
        }
    }
}

fn runs_through(node_ids: &Vec<NodeID>, node: NodeID) -> (found: bool)
    ensures
        found == node_ids@.contains(node),
{
    let mut j: usize = 0;
    while j < node_ids.len()
        invariant
            j <= node_ids@.len(),
            forall|k: int| 0 <= k < j ==> node_ids@[k] != node,
        decreases node_ids@.len() - j,
    {
        if node_ids[j].0 == node.0 {
            return true;
        }
        j += 1;
    }
    false
}

/// Finds the severances that run through a node.
pub fn severances_through(g: &Graph, node: NodeID) -> (roads: Vec<RoadID>)
    ensures
        roads@ == severances_at(*g, node, g.roads@.len()),
{
    let mut roads: Vec<RoadID> = Vec::new();
    let mut r: usize = 0;
    while r < g.roads.len()
        invariant
            r <= g.roads@.len(),
            roads@ == severances_at(*g, node, r as nat),
        decreases g.roads@.len() - r,
    {
        let severance = match g.roads[r].kind {
            RoadKind::Severance => true,
            _ => false,
        };
        if severance && runs_through(&g.roads[r].node_ids, node) {
            roads.push(RoadID(r));
        }
        r += 1;
    }
    roads
}

/// Keeps the candidates that lie on a severance, and ties each to the severances through its
/// node. The others are dropped.
pub fn scrape_graph(graph: &Graph, extra_scraped: &mut CrossingsAndBuildings)
    ensures
        final(extra_scraped).buildings == old(extra_scraped).buildings,
        crossings_attached(*graph, old(extra_scraped).crossings@, final(extra_scraped).crossings@),
        forall|k: int|
            0 <= k < final(extra_scraped).crossings@.len() ==> crate::model::crossing_wf(
                *graph,
                #[trigger] final(extra_scraped).crossings@[k],
            ),
{
    let mut keep: Vec<Crossing> = Vec::new();
    let ghost candidates = extra_scraped.crossings@;
    let mut c: usize = 0;
    while c < extra_scraped.crossings.len()
        invariant
            c <= candidates.len(),
            extra_scraped.crossings@ == candidates,
            extra_scraped.buildings == old(extra_scraped).buildings,
            keep@.len() == retained(*graph, candidates, c as nat).len(),
            forall|k: int|
                0 <= k < keep@.len() ==> tied(
                    *graph,
                    candidates[retained(*graph, candidates, c as nat)[k]],
                    #[trigger] keep@[k],
                ) && crate::model::crossing_wf(*graph, keep@[k]),
        decreases candidates.len() - c,
    {
        let candidate = &extra_scraped.crossings[c];
        let roads = severances_through(graph, candidate.osm_id);
        if roads.len() > 0 {
            let crossing = Crossing {
                osm_id: candidate.osm_id,
                point: candidate.point,
                roads,
                tags: candidate.tags.copy(),
                kind: candidate.kind,
            };
            proof {
                lemma_tied_crossing_wf(*graph, candidates[c as int], crossing);
            }
            keep.push(crossing);
        }
        c += 1;
    }
    extra_scraped.crossings = keep;
}

/// The element is a node at which pedestrians may be let across.
pub open spec fn is_candidate(e: Element) -> bool {
    e is Node && crossing_candidate(tags_of(e))
}

/// The element is a way that is tagged as a building.
pub open spec fn is_building(e: Element) -> bool {
    e is Way && tag_has(tags_of(e), "building"@)
}

/// The extract holds every node of the way.
pub open spec fn way_known(e: Element, points: Map<i64, Pt>) -> bool {
    forall|j: int| 0 <= j < nodes_of(e).len() ==> points.contains_key((#[trigger] nodes_of(e)[j]).0)
}

/// The places among the first `n` elements of the nodes that may be crossings.
pub open spec fn candidate_places(elements: Seq<Element>, n: nat) -> Seq<int>
    decreases n,
{
    if n == 0 {
        Seq::empty()
    } else {
        let before = candidate_places(elements, (n - 1) as nat);
        if is_candidate(elements[n - 1]) {
            before.push(n - 1)
        } else {
            before
        }
    }
}

/// The places among the first `n` elements of the buildings.
pub open spec fn building_places(elements: Seq<Element>, n: nat) -> Seq<int>
    decreases n,
{
    if n == 0 {
        Seq::empty()
    } else {
        let before = building_places(elements, (n - 1) as nat);
        if is_building(elements[n - 1]) {
            before.push(n - 1)
        } else {
            before
        }
    }
}

/// Where a node lies; nowhere in particular for an element that is no node.
pub open spec fn place_of(e: Element) -> Pt {
    match e {
        Element::Node { lon, lat, .. } => Pt { x: lon, y: lat },
        _ => Pt { x: 0, y: 0 },
    }
}

/// The identifier of a node; that of no node for an element that is none.
pub open spec fn node_id_of(e: Element) -> NodeID {
    match e {
        Element::Node { id, .. } => id,
        _ => NodeID(0),
    }
}

/// What is scraped from the first `n` elements: a candidate for each node that may be a
/// crossing, and an outline for each building.
pub open spec fn scraped(
    elements: Seq<Element>,
    points: Map<i64, Pt>,
    n: nat,
    found: CrossingsAndBuildings,
) -> bool {
    let nodes = candidate_places(elements, n);
    let ways = building_places(elements, n);
    &&& found.crossings@.len() == nodes.len()
    &&& forall|k: int|
        0 <= k < nodes.len() ==> scraped_crossing(
            #[trigger] found.crossings@[k],
            node_id_of(elements[nodes[k]]),
            place_of(elements[nodes[k]]),
            tags_of(elements[nodes[k]]),
        )
    &&& found.buildings@.len() == ways.len()
    &&& forall|k: int|
        0 <= k < ways.len() ==> (#[trigger] found.buildings@[k])@ == outline_of(
            nodes_of(elements[ways[k]]),
            points,
        ) && way_known(elements[ways[k]], points)
}

/// Scrapes the candidates for crossings and the outlines of the buildings from an extract.
/// Fails with `InputMalformed` where a building runs through a node that the extract lacks.
pub fn scrape(elements: &Vec<Element>, points: &std::collections::HashMap<i64, Pt>) -> (found: Result<
    CrossingsAndBuildings,
    Error,
>)
    ensures
        match found {
            Ok(found) => scraped(elements@, points@, elements@.len(), found),
            Err(e) => e == Error::InputMalformed && exists|i: int|
                0 <= i < elements@.len() && is_building(#[trigger] elements@[i]) && !way_known(
                    elements@[i],
                    points@,
                ),
        },
{
    let mut found = CrossingsAndBuildings::new();
    let mut i: usize = 0;
    while i < elements.len()
        invariant
            i <= elements@.len(),
            scraped(elements@, points@, i as nat, found),
        decreases elements@.len() - i,
    {
        let ghost before = found;
        let ghost e = elements@[i as int];
        match &elements[i] {
            Element::Node { id, lon, lat, tags } => {
                found.node(*id, Pt { x: *lon, y: *lat }, tags);
                assert(is_candidate(e) == crossing_candidate(tags@));
                assert(!is_building(e));
            },
            Element::Way { id, node_ids, tags } => {
                assert(nodes_of(e) == node_ids@);
                assert(is_building(e) == tag_has(tags@, "building"@));
                assert(!is_candidate(e));
                match found.way(node_ids, points, tags) {
                    Ok(_) => {},
                    Err(e) => {
                        return Err(e);
                    },
                }
            },
            Element::Relation { .. } => {
                found.relation();
                assert(!is_candidate(e) && !is_building(e));
            },
        }
        i += 1;
        proof {
            let nodes = candidate_places(elements@, i as nat);
            let ways = building_places(elements@, i as nat);
            let nodes0 = candidate_places(elements@, (i - 1) as nat);
            let ways0 = building_places(elements@, (i - 1) as nat);
            assert forall|k: int| 0 <= k < nodes.len() implies scraped_crossing(
                #[trigger] found.crossings@[k],
                node_id_of(elements@[nodes[k]]),
                place_of(elements@[nodes[k]]),
                tags_of(elements@[nodes[k]]),
            ) by {
                if k < nodes0.len() {
                    if is_candidate(e) {
                        assert(found.crossings@.drop_last()[k] == found.crossings@[k]);
                    }
                    assert(found.crossings@[k] == before.crossings@[k]);
                    assert(nodes[k] == nodes0[k]);
                }
            }
            assert forall|k: int| 0 <= k < ways.len() implies (#[trigger] found.buildings@[k])@
                == outline_of(nodes_of(elements@[ways[k]]), points@) && way_known(
                elements@[ways[k]],
                points@,
            ) by {
                if k < ways0.len() {
                    if is_building(e) {
                        assert(found.buildings@.drop_last()[k] == found.buildings@[k]);
                    }
                    assert(found.buildings@[k] == before.buildings@[k]);
                    assert(ways[k] == ways0[k]);
                }
            }
            assert(found.crossings@.len() == nodes.len());
            assert(found.buildings@.len() == ways.len());
            assert(scraped(elements@, points@, i as nat, found));
        }
    }
    Ok(found)
}

/// The outlines of buildings, as sequences of points.
pub open spec fn outlines(buildings: Seq<Vec<Pt>>) -> Seq<Seq<Pt>> {
    Seq::new(buildings.len(), |i: int| buildings[i]@)
}

/// The road at which a building with this outline stands: the road that the first point of
/// the outline lands on for the walker who crosses anywhere, if there is such a point and it
/// lands anywhere.
pub open spec fn home_of(g: Graph, outline: Seq<Pt>, r: int) -> bool {
    outline.len() > 0 && exists|p: SnappedPosition|
        #[trigger] snaps_to(g, Walker::CrossAnywhere, outline[0], p) && p.road.0 == r
}

/// The outlines among the first `n` of the buildings that stand at the road `r`.
pub open spec fn housed(g: Graph, all: Seq<Seq<Pt>>, r: int, n: nat) -> Seq<Seq<Pt>>
    decreases n,
{
    if n == 0 {
        Seq::empty()
    } else {
        let before = housed(g, all, r, (n - 1) as nat);
        if home_of(g, all[n - 1], r) {
            before.push(all[n - 1])
        } else {
            before
        }
    }
}

/// Sorts the buildings by the road at which each of them stands. A building without a point,
/// or one in a graph without roads to take, stands at no road and is left out.
pub fn house_buildings(g: &Graph, buildings: &Vec<Vec<Pt>>) -> (per_road: Vec<Vec<Vec<Pt>>>)
    requires
        g.wf(),
    ensures
        per_road@.len() == g.roads@.len(),
        forall|r: int|
            0 <= r < g.roads@.len() ==> outlines((#[trigger] per_road@[r])@) == housed(
                *g,
                outlines(buildings@),
                r,
                buildings@.len(),
            ),
{
    let mut per_road: Vec<Vec<Vec<Pt>>> = Vec::new();
    let mut r: usize = 0;
    while r < g.roads.len()
        invariant
            r <= g.roads@.len(),
            per_road@.len() == r,
            forall|j: int| 0 <= j < r ==> (#[trigger] per_road@[j])@.len() == 0,
        decreases g.roads@.len() - r,
    {
        per_road.push(Vec::new());
        r += 1;
    }
    let ghost all = outlines(buildings@);
    assert forall|j: int| 0 <= j < g.roads@.len() implies outlines((#[trigger] per_road@[j])@) == housed(
        *g,
        all,
        j,
        0,
    ) by {
        assert(outlines(per_road@[j]@) =~= Seq::<Seq<Pt>>::empty());
    }
    let mut b: usize = 0;
    while b < buildings.len()
        invariant
            g.wf(),
            b <= buildings@.len(),
            all == outlines(buildings@),
            per_road@.len() == g.roads@.len(),
            forall|j: int|
                0 <= j < g.roads@.len() ==> outlines((#[trigger] per_road@[j])@) == housed(
                    *g,
                    all,
                    j,
                    b as nat,
                ),
        decreases buildings@.len() - b,
    {
        let ghost before = per_road@;
        let mut home: Option<usize> = None;
        if buildings[b].len() > 0 {
            match snap_to_road(g, Walker::CrossAnywhere, buildings[b][0]) {
                Some(p) => {
                    home = Some(p.road.0);
                    assert(snaps_to(*g, Walker::CrossAnywhere, buildings@[b as int]@[0], p));
                    proof {
                        assert forall|q: SnappedPosition| #[trigger]
                            snaps_to(*g, Walker::CrossAnywhere, buildings@[b as int]@[0], q) implies q
                            == p by {
                            crate::router::lemma_snaps_to_one_place(
                                *g,
                                Walker::CrossAnywhere,
                                buildings@[b as int]@[0],
                                p,
                                q,
                            );
                        }
                    }
                },
                None => {
                    proof {
                        assert forall|q: SnappedPosition|
                            !#[trigger] snaps_to(
                                *g,
                                Walker::CrossAnywhere,
                                buildings@[b as int]@[0],
                                q,
                            ) by {
                            if snaps_to(*g, Walker::CrossAnywhere, buildings@[b as int]@[0], q) {
                                assert(!crate::router::passable(
                                    *g,
                                    Walker::CrossAnywhere,
                                    RoadID((q.road.0 as int) as usize),
                                ));
                            }
                        }
                    }
                },
            }
        }
        assert(all[b as int] == buildings@[b as int]@);
        assert(g.roads.len() == g.roads@.len());
        assert forall|j: int| 0 <= j < g.roads@.len() implies (home == Some(j as usize) <==> home_of(
            *g,
            all[b as int],
            j,
        )) by {
            if home_of(*g, all[b as int], j) {
                let q = choose|q: SnappedPosition|
                    #[trigger] snaps_to(*g, Walker::CrossAnywhere, all[b as int][0], q) && q.road.0
                        == j;
                assert(home == Some(j as usize));
            }
            if home == Some(j as usize) {
                assert(home_of(*g, all[b as int], j));
            }
        }
        match home {
            Some(at) => {
                let outline = copy_points(&buildings[b]);
                per_road[at].push(outline);
                proof {
                    assert forall|j: int| 0 <= j < g.roads@.len() implies outlines(
                        (#[trigger] per_road@[j])@,
                    ) == housed(*g, all, j, (b + 1) as nat) by {
                        if j == at {
                            assert(outlines(per_road@[j]@) =~= outlines(before[j]@).push(all[b as int]));
                        } else {
                            assert(per_road@[j] == before[j]);
                        }
                    }
                }
            },
            None => {},
        }
        b += 1;
    }
    per_road
}

/// What was scraped, carried into the planar frame: each candidate and each outline is where
/// the frame puts it.
pub open spec fn scraped_projected(
    found: CrossingsAndBuildings,
    staged: CrossingsAndBuildings,
    frame: Mercator,
) -> bool {
    &&& staged.crossings@.len() == found.crossings@.len()
    &&& forall|k: int|
        0 <= k < found.crossings@.len() ==> {
            &&& (#[trigger] staged.crossings@[k]).osm_id == found.crossings@[k].osm_id
            &&& staged.crossings@[k].tags == found.crossings@[k].tags
            &&& staged.crossings@[k].kind == found.crossings@[k].kind
            &&& staged.crossings@[k].roads == found.crossings@[k].roads
            &&& staged.crossings@[k].point == frame.to_mercator(found.crossings@[k].point)
        }
    &&& staged.buildings@.len() == found.buildings@.len()
    &&& forall|k: int|
        0 <= k < found.buildings@.len() ==> {
            &&& (#[trigger] staged.buildings@[k])@.len() == found.buildings@[k]@.len()
            &&& forall|j: int|
                0 <= j < found.buildings@[k]@.len() ==> #[trigger] staged.buildings@[k]@[j]
                    == frame.to_mercator(found.buildings@[k]@[j])
        }
}

/// Carries what was scraped into the planar frame.
pub fn project_scraped(found: &mut CrossingsAndBuildings, frame: &Mercator)
    requires
        frame.wf(),
    ensures
        scraped_projected(*old(found), *final(found), *frame),
{
    let ghost f0 = *found;
    let mut c: usize = 0;
    while c < found.crossings.len()
        invariant
            frame.wf(),
            c <= found.crossings@.len(),
            found.crossings@.len() == f0.crossings@.len(),
            found.buildings == f0.buildings,
            forall|k: int|
                0 <= k < c ==> {
                    &&& (#[trigger] found.crossings@[k]).osm_id == f0.crossings@[k].osm_id
                    &&& found.crossings@[k].tags == f0.crossings@[k].tags
                    &&& found.crossings@[k].kind == f0.crossings@[k].kind
                    &&& found.crossings@[k].roads == f0.crossings@[k].roads
                    &&& found.crossings@[k].point == frame.to_mercator(f0.crossings@[k].point)
                },
            forall|k: int| c <= k < found.crossings@.len() ==> found.crossings@[k] == f0.crossings@[k],
        decreases found.crossings@.len() - c,
    {
        let p = frame.pt_to_mercator(found.crossings[c].point);
        found.crossings[c].point = p;
        c += 1;
    }
    let ghost f1 = *found;
    let mut b: usize = 0;
    while b < found.buildings.len()
        invariant
            frame.wf(),
            b <= found.buildings@.len(),
            found.crossings == f1.crossings,
            found.buildings@.len() == f0.buildings@.len(),
            forall|k: int|
                0 <= k < b ==> {
                    &&& (#[trigger] found.buildings@[k])@.len() == f0.buildings@[k]@.len()
                    &&& forall|j: int|
                        0 <= j < f0.buildings@[k]@.len() ==> #[trigger] found.buildings@[k]@[j]
                            == frame.to_mercator(f0.buildings@[k]@[j])
                },
            forall|k: int| b <= k < found.buildings@.len() ==> found.buildings@[k] == f0.buildings@[k],
        decreases found.buildings@.len() - b,
    {
        frame.to_mercator_in_place(&mut found.buildings[b]);
        b += 1;
    }
}

/// Working out what the walkers make of the roads leaves a consistent graph consistent.
pub proof fn lemma_profiled_wf(old: Graph, new: Graph, profile: Profile)
    requires
        old.wf(),
        profiled(old, new, profile),
    ensures
        new.wf(),
{
    assert forall|r: int| 0 <= r < new.roads@.len() implies #[trigger] new.road_wf(r) by {
        assert(old.road_wf(r));
        assert(road_profiled(old.roads@[r], new.roads@[r], profile));
    }
    assert forall|i: int| 0 <= i < new.intersections@.len() implies #[trigger] new.intersection_wf(
        i,
    ) by {
        assert(old.intersection_wf(i));
        let roads = new.intersections@[i].roads@;
        assert forall|k: int| 0 <= k < roads.len() implies {
            &&& (#[trigger] roads[k]).0 < new.roads@.len()
            &&& new.roads@[roads[k].0 as int].touches(i)
        } by {
            assert(road_profiled(
                old.roads@[roads[k].0 as int],
                new.roads@[roads[k].0 as int],
                profile,
            ));
        }
    }
}

/// The points of the first `n` roads, one road after another.
pub open spec fn road_points(roads: Seq<Road>, n: nat) -> Seq<Pt>
    decreases n,
{
    if n == 0 {
        Seq::empty()
    } else {
        road_points(roads, (n - 1) as nat) + roads[n - 1].linestring@
    }
}

/// The frame lies over the bounds of the roads of the graph: its corners have the least and
/// the greatest coordinates among the points of the roads.
pub open spec fn framed(built: Graph, frame: Mercator) -> bool {
    bounds_of(
        road_points(built.roads@, built.roads@.len()),
        Pt { x: frame.min_lon, y: frame.min_lat },
        Pt { x: frame.max_lon, y: frame.max_lat },
    )
}

/// The frame of the width and the height given over the bounds of the roads of the graph, or
/// `None` where the roads have no point.
pub fn frame_around(graph: &Graph, width: u32, height: u32) -> (frame: Option<Mercator>)
    ensures
        frame is None <==> road_points(graph.roads@, graph.roads@.len()).len() == 0,
        frame matches Some(f) ==> f.wf() && framed(*graph, f) && f.width == width && f.height
            == height,
{
    let mut pts: Vec<Pt> = Vec::new();
    let mut r: usize = 0;
    while r < graph.roads.len()
        invariant
            r <= graph.roads@.len(),
            pts@ == road_points(graph.roads@, r as nat),
        decreases graph.roads@.len() - r,
    {
        let ghost before = pts@;
        let line = &graph.roads[r].linestring;
        let mut j: usize = 0;
        while j < line.len()
            invariant
                j <= line@.len(),
                pts@ == before + line@.take(j as int),
            decreases line@.len() - j,
        {
            pts.push(line[j]);
            assert(pts@ =~= before + line@.take(j + 1));
            j += 1;
        }
        assert(line@.take(j as int) =~= line@);
        r += 1;
    }
    match bounding_box(&pts) {
        Some((lo, hi)) => {
            assert(lo.x <= hi.x && lo.y <= hi.y) by {
                let i = choose|i: int| 0 <= i < pts@.len() && (#[trigger] pts@[i]).x == lo.x;
                let j = choose|j: int| 0 <= j < pts@.len() && (#[trigger] pts@[j]).y == lo.y;
            }
            Mercator::new(lo, hi, width, height)
        },
        None => None,
    }
}

/// The stages by which a map model is made of an extract: the graph is built, carried into the
/// planar frame, which lies over the bounds of its roads, and taken apart at severances; what
/// was scraped is carried into the frame too;
/// the crossings are tied to the final roads, the walkers' costs worked out, and the buildings
/// sorted by road.
pub open spec fn created(
    elements: Seq<Element>,
    profile: Profile,
    frame: Mercator,
    built: Graph,
    flat: Graph,
    cut: Graph,
    found: CrossingsAndBuildings,
    staged: CrossingsAndBuildings,
    map: MapModel,
) -> bool {
    &&& graph_built(elements, profile, Ok(built))
    &&& built.intersections@.len() >= 2
    &&& framed(built, frame)
    &&& projected(built, flat, frame)
    &&& post_processed(flat, cut)
    &&& profiled(cut, map.graph, profile)
    &&& scraped(elements, points_of(elements, elements.len()), elements.len(), found)
    &&& scraped_projected(found, staged, frame)
    &&& crossings_attached(cut, staged.crossings@, map.crossings@)
    &&& map.buildings_per_road@.len() == map.graph.roads@.len()
    &&& forall|r: int|
        0 <= r < map.graph.roads@.len() ==> outlines((#[trigger] map.buildings_per_road@[r])@)
            == housed(map.graph, outlines(staged.buildings@), r, staged.buildings@.len())
    &&& map.mercator == frame
    &&& map.gradients@.len() == map.graph.roads@.len()
    &&& forall|r: int| 0 <= r < map.gradients@.len() ==> #[trigger] map.gradients@[r] == 0
    &&& map.walking_settings == uk_settings()
    &&& map.cross_anywhere_settings == (Settings { obey_crossings: false, ..uk_settings() })
}

/// The map model is made of the extract by the stages above.
pub open spec fn was_created(
    elements: Seq<Element>,
    profile: Profile,
    frame: Mercator,
    map: MapModel,
) -> bool {
    exists|
        built: Graph,
        flat: Graph,
        cut: Graph,
        found: CrossingsAndBuildings,
        staged: CrossingsAndBuildings,
    | #[trigger] created(elements, profile, frame, built, flat, cut, found, staged, map)
}

/// What making a map model comes to: a consistent model made by the stages above, in a frame
/// of the width and the height given; or `InputMalformed` where a kept way or a building runs
/// through a node that the extract lacks, or `EmptyArea` where the graph has fewer than two
/// intersections.
pub open spec fn create_answers(
    elements: Seq<Element>,
    profile: Profile,
    width: u32,
    height: u32,
    made: Result<MapModel, Error>,
) -> bool {
    let points = points_of(elements, elements.len());
    match made {
        Ok(map) => {
            &&& map.wf()
            &&& map.mercator.width == width
            &&& map.mercator.height == height
            &&& was_created(elements, profile, map.mercator, map)
        },
        Err(Error::InputMalformed) => {
            ||| exists|e: Error| #[trigger] graph_built(elements, profile, Err(e))
            ||| exists|i: int|
                0 <= i < elements.len() && is_building(#[trigger] elements[i]) && !way_known(
                    elements[i],
                    points,
                )
        },
        Err(Error::EmptyArea) => exists|built: Graph| #[trigger]
            graph_built(elements, profile, Ok(built)) && built.intersections@.len() < 2,
        Err(_) => false,
    }
}

impl MapModel {
    /// Makes a map model of the elements of an extract. The planar frame lies over the bounds
    /// of the roads, and is `width` centimetres wide and `height` centimetres high: the size of
    /// these bounds on the ground.
    ///
    /// Fails with `InputMalformed` where a way that is kept, or a building, runs through a node
    /// that the extract lacks, and with `EmptyArea` where fewer than two intersections are
    /// left once the ways are classified.
    pub fn create(elements: &Vec<Element>, profile: Profile, width: u32, height: u32) -> (made: Result<
        MapModel,
        Error,
    >)
        ensures
            create_answers(elements@, profile, width, height, made),
    {
        let points = collect_points(elements);
        let mut graph = match build_graph(elements, profile) {
            Ok(graph) => graph,
            Err(e) => {
                assert(graph_built(elements@, profile, Err(e)));
                return Err(Error::InputMalformed);
            },
        };
        let ghost built = graph;
        let mut extra_scraped = match scrape(elements, &points) {
            Ok(found) => found,
            Err(_) => {
                return Err(Error::InputMalformed);
            },
        };
        let ghost found = extra_scraped;
        if graph.intersections.len() < 2 {
            return Err(Error::EmptyArea);
        }
        proof {
            // an intersection has a road, and a road has points
            let kept = crate::builder::kept_ways(elements@, profile, elements@.len());
            let spans = crate::builder::all_spans(elements@, kept, kept.len());
            assert(crate::builder::built(elements@, kept, points@, profile, spans, graph));
            assert(graph.intersections@[0].roads@.len() > 0);
            assert(graph.intersection_wf(0));
            assert(graph.intersections@[0].roads@[0].0 < graph.roads@.len());
            assert(graph.road_wf(graph.roads@.len() - 1));
        }
        let frame = match frame_around(&graph, width, height) {
            Some(frame) => frame,
            None => {
                return Err(Error::EmptyArea);
            },
        };
        project(&mut graph, &frame);
        let ghost flat = graph;
        post_process_graph(&mut graph);
        let ghost cut = graph;
        project_scraped(&mut extra_scraped, &frame);
        let ghost staged = extra_scraped;
        scrape_graph(&graph, &mut extra_scraped);
        apply_profiles(&mut graph, profile);
        proof {
            lemma_profiled_wf(cut, graph, profile);
        }
        let buildings_per_road = house_buildings(&graph, &extra_scraped.buildings);
        let mut gradients: Vec<i32> = Vec::new();
        let mut r: usize = 0;
        while r < graph.roads.len()
            invariant
                r <= graph.roads@.len(),
                gradients@.len() == r,
                forall|j: int| 0 <= j < r ==> #[trigger] gradients@[j] == 0,
            decreases graph.roads@.len() - r,
        {
            gradients.push(0);
            r += 1;
        }
        let map = MapModel {
            graph,
            mercator: frame,
            gradients,
            crossings: extra_scraped.crossings,
            buildings_per_road,
            walking_settings: Settings::uk(),
            cross_anywhere_settings: Settings {
                obey_crossings: false,
                base_speed_mph: 3000,
                delay_signalized: 30000,
                delay_zebra: 0,
                delay_other: 10000,
            },
        };
        proof {
            let kept = crate::builder::kept_ways(elements@, profile, elements@.len());
            let spans = crate::builder::all_spans(elements@, kept, kept.len());
            assert forall|r: int| 0 <= r < map.graph.roads@.len() implies Some(
                (#[trigger] map.graph.roads@[r]).kind,
            ) == classify(profile, cut.roads@[r].tags@) && road_profiled(
                cut.roads@[r],
                map.graph.roads@[r],
                profile,
            ) by {
                assert(crate::builder::road_of_span(
                    elements@,
                    kept,
                    points@,
                    profile,
                    spans[r],
                    built.roads@[r],
                ));
                assert(road_projected(built.roads@[r], flat.roads@[r], frame));
                assert(crate::severance::road_rewired(flat, cut, r));
                assert(road_profiled(cut.roads@[r], map.graph.roads@[r], profile));
            }
            assert forall|r: int| 0 <= r < map.graph.roads@.len() implies crate::model::severance_closed(
                #[trigger] map.graph.roads@[r],
            ) && crate::model::two_way(map.graph.roads@[r]) by {
                assert(Some(map.graph.roads@[r].kind) == classify(profile, cut.roads@[r].tags@));
                assert(road_profiled(cut.roads@[r], map.graph.roads@[r], profile));
            }
            assert forall|r: int| 0 <= r < map.graph.roads@.len() implies crate::model::cost_current(
                #[trigger] map.graph.roads@[r],
                Walker::Walking,
                map.walking_settings,
            ) by {
                assert(Some(map.graph.roads@[r].kind) == classify(profile, cut.roads@[r].tags@));
            }
            assert forall|r: int| 0 <= r < map.graph.roads@.len() implies crate::model::cost_current(
                #[trigger] map.graph.roads@[r],
                Walker::CrossAnywhere,
                map.cross_anywhere_settings,
            ) by {
                assert(Some(map.graph.roads@[r].kind) == classify(profile, cut.roads@[r].tags@));
            }
            assert forall|c: int| 0 <= c < map.crossings@.len() implies crate::model::crossing_wf(
                map.graph,
                #[trigger] map.crossings@[c],
            ) by {
                let crossing = map.crossings@[c];
                assert(crate::model::crossing_wf(cut, crossing));
                assert forall|k: int| 0 <= k < crossing.roads@.len() implies (
                #[trigger] crossing.roads@[k]).0 < map.graph.roads@.len() && map.graph.kind_of(
                    crossing.roads@[k],
                ) == RoadKind::Severance by {
                    let q = crossing.roads@[k].0 as int;
                    assert(road_profiled(cut.roads@[q], map.graph.roads@[q], profile));
                }
            }
            assert(created(elements@, profile, frame, built, flat, cut, found, staged, map));
        }
        Ok(map)
    }
}

/// Reads an extract and builds the graph of the ways that `profile` keeps, with its points as
/// they are in the extract. Of an extract in PBF, `decoded` holds what a decoder has handed
/// out. Fails with `InputMalformed` where the extract cannot be read or a way that is kept runs
/// through a node that the extract lacks.
pub fn scrape_osm(input_bytes: &[u8], decoded: Option<&Vec<RawElement>>, profile: Profile) -> (made: Result<
    Graph,
    Error,
>)
    ensures
        match made {
            Ok(g) => exists|elements: Vec<Element>| #[trigger]
                parsed_as(input_bytes@, decoded_view(decoded), Ok(elements)) && graph_built(elements@, profile, Ok(g)),
            Err(e) => {
                &&& e == Error::InputMalformed
                &&& parsed_as(input_bytes@, decoded_view(decoded), Err(Error::InputMalformed)) || exists|elements: Vec<Element>| #[trigger]
                    parsed_as(input_bytes@, decoded_view(decoded), Ok(elements)) && graph_built(
                        elements@,
                        profile,
                        Err(Error::InputMalformed),
                    )
            },
        },
{
    let elements = match parse(input_bytes, decoded) {
        Ok(elements) => elements,
        Err(e) => {
            assert(e == Error::InputMalformed);
            return Err(Error::InputMalformed);
        },
    };
    match build_graph(&elements, profile) {
        Ok(g) => {
            assert(parsed_as(input_bytes@, decoded_view(decoded), Ok(elements)) && graph_built(elements@, profile, Ok(g)));
            Ok(g)
        },
        Err(e) => {
            assert(parsed_as(input_bytes@, decoded_view(decoded), Ok(elements)) && graph_built(
                elements@,
                profile,
                Err(Error::InputMalformed),
            ));
            Err(Error::InputMalformed)
        },
    }
}

impl MapModel {
    /// Reads an extract and makes a map model of it, in a planar frame over the bounds of the
    /// roads that is `width` centimetres wide and `height` centimetres high. Of an extract in
    /// PBF, `decoded` holds what a decoder has handed out.
    ///
    /// Fails with `InputMalformed` where the extract cannot be read, or where a way that is
    /// kept, or a building, runs through a node that the extract lacks; and with `EmptyArea`
    /// where fewer than two intersections are left once the ways are classified.
    pub fn new(
        input_bytes: &[u8],
        decoded: Option<&Vec<RawElement>>,
        profile: Profile,
        width: u32,
        height: u32,
    ) -> (made: Result<MapModel, Error>)
        ensures
            match made {
                Ok(map) => exists|elements: Vec<Element>| #[trigger]
                    parsed_as(input_bytes@, decoded_view(decoded), Ok(elements)) && create_answers(
                        elements@,
                        profile,
                        width,
                        height,
                        Ok(map),
                    ),
                Err(e) => {
                    ||| e == Error::InputMalformed && parsed_as(input_bytes@, decoded_view(decoded), Err(Error::InputMalformed))
                    ||| exists|elements: Vec<Element>| #[trigger]
                        parsed_as(input_bytes@, decoded_view(decoded), Ok(elements)) && create_answers(
                            elements@,
                            profile,
                            width,
                            height,
                            Err(e),
                        )
                },
            },
    {
        let elements = match parse(input_bytes, decoded) {
            Ok(elements) => elements,
            Err(e) => {
                assert(e == Error::InputMalformed);
                return Err(Error::InputMalformed);
            },
        };
        let made = MapModel::create(&elements, profile, width, height);
        proof {
            assert(parsed_as(input_bytes@, decoded_view(decoded), Ok(elements)) && create_answers(
                elements@,
                profile,
                width,
                height,
                made,
            ));
        }
        made
    }
}

/// The slope of a road in hundredths of a percent: the rise from its start to its end, set
/// against its length, all in centimetres; rounded towards nothing, and nothing for a road
/// without length.
pub open spec fn slope(height1: i32, height2: i32, length: u64) -> int {
    let rise = height2 - height1;
    if length == 0 {
        0
    } else if rise >= 0 {
        rise * 10_000 / (length as int)
    } else {
        -((-rise) * 10_000 / (length as int))
    }
}

/// The slope of a road in hundredths of a percent.
pub fn gradient(height1: i32, height2: i32, length: u64) -> (g: i32)
    ensures
        g == crate::mercator::clamp_i32(slope(height1, height2, length)),
{
    if length == 0 {
        return 0;
    }
    let rise: i64 = height2 as i64 - height1 as i64;
    let size: u128 = (if rise >= 0 {
        rise
    } else {
        -rise
    }) as u128;
    let q: u128 = size * 10_000 / (length as u128);
    assert(q <= size * 10_000) by (nonlinear_arith)
        requires
            q == (size * 10_000) / (length as int),
            length >= 1,
            size >= 0,
    ;
    let signed: i128 = if rise >= 0 {
        q as i128
    } else {
        -(q as i128)
    };
    if signed < i32::MIN as i128 {
        i32::MIN
    } else if signed > i32::MAX as i128 {
        i32::MAX
    } else {
        signed as i32
    }
}

/// Works out the slope of each road from the heights, in centimetres, at its two ends. `None`
/// where the heights are not those of as many roads as the graph has.
pub fn read_gradients(graph: &Graph, heights: &Vec<(i32, i32)>) -> (gradients: Option<Vec<i32>>)
    ensures
        gradients is Some <==> heights@.len() == graph.roads@.len(),
        gradients matches Some(g) ==> g@.len() == graph.roads@.len() && forall|r: int|
            0 <= r < graph.roads@.len() ==> #[trigger] g@[r] == crate::mercator::clamp_i32(
                slope(
                    heights@[r].0,
                    heights@[r].1,
                    crate::geometry::clamp_u64(
                        crate::geometry::line_length(graph.roads@[r].linestring@),
                    ),
                ),
            ),
{
    if heights.len() != graph.roads.len() {
        return None;
    }
    let mut gradients: Vec<i32> = Vec::new();
    let mut r: usize = 0;
    while r < graph.roads.len()
        invariant
            heights@.len() == graph.roads@.len(),
            r <= graph.roads@.len(),
            gradients@.len() == r,
            forall|q: int|
                0 <= q < r ==> #[trigger] gradients@[q] == crate::mercator::clamp_i32(
                    slope(
                        heights@[q].0,
                        heights@[q].1,
                        crate::geometry::clamp_u64(
                            crate::geometry::line_length(graph.roads@[q].linestring@),
                        ),
                    ),
                ),
        decreases graph.roads@.len() - r,
    {
        let length = crate::geometry::polyline_length(&graph.roads[r].linestring);
        gradients.push(gradient(heights[r].0, heights[r].1, length));
        r += 1;
    }
    Some(gradients)
}

} // verus!
