//! Building the graph: ways are cut where they meet, and each piece becomes a road.

use crate::error::Error;
use crate::geometry::Pt;
use crate::graph::{
    earlier, same_but_ends, Direction, Graph, Intersection, IntersectionID, Road, RoadID, Travel,
};
use crate::osm::{NodeID, WayID};
use crate::osm_reader::Element;
use crate::profiles::{classify, Profile, RoadKind};
use crate::tags::Tags;
use std::collections::HashMap;
use vstd::prelude::*;

verus! {

broadcast use vstd::std_specs::hash::group_hash_axioms;

/// The nodes along a way; none for an element that is no way.
pub open spec fn nodes_of(e: Element) -> Seq<NodeID> {
    match e {
        Element::Way { node_ids, .. } => node_ids@,
        _ => Seq::empty(),
    }
}

/// The tags of an element.
pub open spec fn tags_of(e: Element) -> Map<Seq<char>, Seq<char>> {
    match e {
        Element::Node { tags, .. } => tags@,
        Element::Way { tags, .. } => tags@,
        Element::Relation { tags, .. } => tags@,
    }
}

/// The element is a way that `profile` keeps in the walking network.
pub open spec fn way_kept(e: Element, profile: Profile) -> bool {
    e is Way && classify(profile, tags_of(e)) is Some
}

/// Where the nodes among the first `n` elements lie: the place that the last node with an
/// identifier gives.
pub open spec fn points_of(elements: Seq<Element>, n: nat) -> Map<i64, Pt>
    decreases n,
{
    if n == 0 {
        Map::empty()
    } else {
        let before = points_of(elements, (n - 1) as nat);
        match elements[n - 1] {
            Element::Node { id, lon, lat, .. } => before.insert(id.0, Pt { x: lon, y: lat }),
            _ => before,
        }
    }
}

/// The places among the first `n` elements of the ways that `profile` keeps.
pub open spec fn kept_ways(elements: Seq<Element>, profile: Profile, n: nat) -> Seq<usize>
    decreases n,
{
    if n == 0 {
        Seq::empty()
    } else {
        let before = kept_ways(elements, profile, (n - 1) as nat);
        if way_kept(elements[n - 1], profile) {
            before.push((n - 1) as usize)
        } else {
            before
        }
    }
}

/// How often the node `node` comes among the first `n` of `nodes`.
pub open spec fn count_in(nodes: Seq<NodeID>, node: i64, n: nat) -> nat
    decreases n,
{
    if n == 0 {
        0
    } else {
        count_in(nodes, node, (n - 1) as nat) + if nodes[n - 1].0 == node {
            1nat
        } else {
            0nat
        }
    }
}

/// How often the node `node` comes in the first `w` of the ways `kept`.
pub open spec fn refs(elements: Seq<Element>, kept: Seq<usize>, node: i64, w: nat) -> nat
    decreases w,
{
    if w == 0 {
        0
    } else {
        let nodes = nodes_of(elements[kept[w - 1] as int]);
        refs(elements, kept, node, (w - 1) as nat) + count_in(nodes, node, nodes.len())
    }
}

/// Ways meet at the node: it comes twice or more in the ways `kept`.
pub open spec fn shared(elements: Seq<Element>, kept: Seq<usize>, node: i64) -> bool {
    refs(elements, kept, node, kept.len()) >= 2
}

/// The way is cut at its node `idx`: at its first and its last node, and wherever ways meet.
pub open spec fn cut(elements: Seq<Element>, kept: Seq<usize>, nodes: Seq<NodeID>, idx: int) -> bool {
    idx == 0 || idx == nodes.len() - 1 || shared(elements, kept, nodes[idx].0)
}

/// The last place at or before `idx` at which the way is cut.
pub open spec fn last_cut(elements: Seq<Element>, kept: Seq<usize>, nodes: Seq<NodeID>, idx: int) -> int
    decreases idx,
{
    if idx <= 0 {
        0
    } else if cut(elements, kept, nodes, idx) {
        idx
    } else {
        last_cut(elements, kept, nodes, idx - 1)
    }
}

/// A piece of a way between two cuts: the place of the way among the ways that are kept, and
/// the places of its first and its last node along the way.
pub struct Span {
    pub way: int,
    pub from: int,
    pub to: int,
}

/// The pieces that end among the first `n` nodes of the way `w`.
pub open spec fn spans_in_way(elements: Seq<Element>, kept: Seq<usize>, w: int, n: nat) -> Seq<Span>
    decreases n,
{
    if n == 0 {
        Seq::empty()
    } else {
        let nodes = nodes_of(elements[kept[w] as int]);
        let idx = n - 1;
        let before = spans_in_way(elements, kept, w, (n - 1) as nat);
        if idx > 0 && cut(elements, kept, nodes, idx) {
            before.push(Span { way: w, from: last_cut(elements, kept, nodes, idx - 1), to: idx })
        } else {
            before
        }
    }
}

/// The pieces of the first `w` ways, way after way.
pub open spec fn all_spans(elements: Seq<Element>, kept: Seq<usize>, w: nat) -> Seq<Span>
    decreases w,
{
    if w == 0 {
        Seq::empty()
    } else {
        all_spans(elements, kept, (w - 1) as nat) + spans_in_way(
            elements,
            kept,
            w - 1,
            nodes_of(elements[kept[w - 1] as int]).len(),
        )
    }
}

/// Reads where each node lies.
pub fn collect_points(elements: &Vec<Element>) -> (points: HashMap<i64, Pt>)
    ensures
        points@ == points_of(elements@, elements@.len()),
{
    let mut points: HashMap<i64, Pt> = HashMap::new();
    let mut i: usize = 0;
    while i < elements.len()
        invariant
            i <= elements@.len(),
            points@ == points_of(elements@, i as nat),
        decreases elements@.len() - i,
    {
        match &elements[i] {
            Element::Node { id, lon, lat, .. } => {
                points.insert(id.0, Pt { x: *lon, y: *lat });
            },
            _ => {},
        }
        i += 1;
    }
    points
}

/// Finds the ways that `profile` keeps.
pub fn queue_ways(elements: &Vec<Element>, profile: Profile) -> (kept: Vec<usize>)
    ensures
        kept@ == kept_ways(elements@, profile, elements@.len()),
        forall|k: int| 0 <= k < kept@.len() ==> (#[trigger] kept@[k]) < elements@.len() && way_kept(
            elements@[kept@[k] as int],
            profile,
        ),
{
    let mut kept: Vec<usize> = Vec::new();
    let mut i: usize = 0;
    while i < elements.len()
        invariant
            i <= elements@.len(),
            kept@ == kept_ways(elements@, profile, i as nat),
            forall|k: int| 0 <= k < kept@.len() ==> (#[trigger] kept@[k]) < i && way_kept(
                elements@[kept@[k] as int],
                profile,
            ),
        decreases elements@.len() - i,
    {
        match &elements[i] {
            Element::Way { tags, .. } => {
                if profile.keeps(tags) {
                    kept.push(i);
                }
            },
            _ => {},
        }
        i += 1;
    }
    kept
}

/// What is known of a node while the ways are counted: whether it came once or more often.
spec fn tally(total: nat, seen: Map<i64, bool>, node: i64) -> bool {
    &&& seen.contains_key(node) <==> total >= 1
    &&& seen.contains_key(node) ==> seen[node] == (total >= 2)
}

/// Finds the nodes at which ways meet: for each node of the ways `kept`, whether it comes
/// twice or more.
pub fn count_nodes(elements: &Vec<Element>, kept: &Vec<usize>) -> (seen: HashMap<i64, bool>)
    requires
        forall|k: int| 0 <= k < kept@.len() ==> (#[trigger] kept@[k]) < elements@.len(),
    ensures
        forall|node: i64|
            seen@.contains_key(node) && seen@[node] <==> #[trigger] shared(elements@, kept@, node),
{
    let mut seen: HashMap<i64, bool> = HashMap::new();
    let mut w: usize = 0;
    while w < kept.len()
        invariant
            w <= kept@.len(),
            forall|k: int| 0 <= k < kept@.len() ==> (#[trigger] kept@[k]) < elements@.len(),
            forall|node: i64| #[trigger] tally(refs(elements@, kept@, node, w as nat), seen@, node),
        decreases kept@.len() - w,
    {
        match &elements[kept[w]] {
            Element::Way { node_ids, .. } => {
                let mut i: usize = 0;
                while i < node_ids.len()
                    invariant
                        i <= node_ids@.len(),
                        w < kept@.len(),
                        kept@[w as int] < elements@.len(),
                        node_ids@ == nodes_of(elements@[kept@[w as int] as int]),
                        forall|node: i64| #[trigger]
                            tally(
                                refs(elements@, kept@, node, w as nat) + count_in(
                                    node_ids@,
                                    node,
                                    i as nat,
                                ),
                                seen@,
                                node,
                            ),
                    decreases node_ids@.len() - i,
                {
                    let node = node_ids[i].0;
                    let ghost before = seen@;
                    let twice = seen.contains_key(&node);
                    seen.insert(node, twice);
                    proof {
                        assert forall|other: i64| #[trigger]
                            tally(
                                refs(elements@, kept@, other, w as nat) + count_in(
                                    node_ids@,
                                    other,
                                    (i + 1) as nat,
                                ),
                                seen@,
                                other,
                            ) by {
                            assert(tally(
                                refs(elements@, kept@, other, w as nat) + count_in(
                                    node_ids@,
                                    other,
                                    i as nat,
                                ),
                                before,
                                other,
                            ));
                        }
                    }
                    i += 1;
                }
            },
            _ => {
                assert(nodes_of(elements@[kept@[w as int] as int]).len() == 0);
            },
        }
        w += 1;
        proof {
            assert forall|node: i64| #[trigger]
                tally(refs(elements@, kept@, node, w as nat), seen@, node) by {
                let nodes = nodes_of(elements@[kept@[w - 1] as int]);
                assert(tally(
                    refs(elements@, kept@, node, (w - 1) as nat) + count_in(nodes, node, nodes.len()),
                    seen@,
                    node,
                ));
            }
        }
    }
    proof {
        assert forall|node: i64|
            seen@.contains_key(node) && seen@[node] <==> #[trigger] shared(
                elements@,
                kept@,
                node,
            ) by {
            assert(tally(refs(elements@, kept@, node, kept@.len()), seen@, node));
        }
    }
    seen
}

/// The identifier of a way; that of no way for an element that is none.
pub open spec fn way_id_of(e: Element) -> WayID {
    match e {
        Element::Way { id, .. } => id,
        _ => WayID(0),
    }
}

/// The extract holds every node of the piece.
pub open spec fn span_known(
    elements: Seq<Element>,
    kept: Seq<usize>,
    points: Map<i64, Pt>,
    span: Span,
) -> bool {
    let nodes = nodes_of(elements[kept[span.way] as int]);
    forall|j: int| span.from <= j <= span.to ==> points.contains_key((#[trigger] nodes[j]).0)
}

/// The extract holds each node of a piece that it holds every node of.
proof fn lemma_span_known_at(
    elements: Seq<Element>,
    kept: Seq<usize>,
    points: Map<i64, Pt>,
    span: Span,
    j: int,
)
    requires
        span_known(elements, kept, points, span),
        span.from <= j <= span.to,
    ensures
        points.contains_key(nodes_of(elements[kept[span.way] as int])[j].0),
{
}

/// A road that no walker takes yet.
pub open spec fn untravelled() -> Travel {
    Travel { access: Direction::Neither, cost: 0 }
}

/// The road is the piece `span` of its way: it runs through the nodes of the piece, where they
/// lie, and has the way's identifier and tags and the kind that `profile` makes of them.
pub open spec fn road_of_span(
    elements: Seq<Element>,
    kept: Seq<usize>,
    points: Map<i64, Pt>,
    profile: Profile,
    span: Span,
    road: Road,
) -> bool {
    let e = elements[kept[span.way] as int];
    let nodes = nodes_of(e);
    &&& road.way == way_id_of(e)
    &&& road.node_ids@ == nodes.subrange(span.from, span.to + 1)
    &&& road.linestring@.len() == road.node_ids@.len()
    &&& forall|j: int|
        0 <= j < road.node_ids@.len() ==> #[trigger] road.linestring@[j] == points[road.node_ids@[j].0]
    &&& road.node1 == nodes[span.from]
    &&& road.node2 == nodes[span.to]
    &&& road.tags@ == tags_of(e)
    &&& Some(road.kind) == classify(profile, tags_of(e))
    &&& road.walking == untravelled()
    &&& road.cross_anywhere == untravelled()
}

/// Every intersection lists its roads in rising order, and the intersections are numbered in
/// the order in which roads first end at them, the source of a road before its destination.
pub open spec fn numbered_in_order(g: Graph) -> bool {
    &&& forall|i: int, k: int, m: int|
        0 <= i < g.intersections@.len() && 0 <= k < m < g.intersections@[i].roads@.len() ==> (
        #[trigger] g.intersections@[i].roads@[k]).0 < (#[trigger] g.intersections@[i].roads@[m]).0
    &&& forall|i: int, j: int| 0 <= i < j < g.intersections@.len() ==> #[trigger] earlier(g, i, j)
}

/// The intersections of the graph are the nodes at which its roads end: one intersection for
/// each such node, at the place where the node lies, numbered in the order in which the roads
/// first end at them.
pub open spec fn intersections_are_nodes(points: Map<i64, Pt>, g: Graph) -> bool {
    &&& numbered_in_order(g)
    &&& forall|i: int|
        0 <= i < g.intersections@.len() ==> {
            &&& (#[trigger] g.intersections@[i]).roads@.len() > 0
            &&& points.contains_key(g.intersections@[i].node.0)
            &&& g.intersections@[i].point == points[g.intersections@[i].node.0]
        }
    &&& forall|i: int, j: int|
        0 <= i < g.intersections@.len() && 0 <= j < g.intersections@.len() && i != j ==> (
        #[trigger] g.intersections@[i]).node != (#[trigger] g.intersections@[j]).node
    &&& forall|r: int|
        0 <= r < g.roads@.len() ==> {
            &&& g.intersections@[(#[trigger] g.roads@[r]).src_i.0 as int].node == g.roads@[r].node1
            &&& g.intersections@[g.roads@[r].dst_i.0 as int].node == g.roads@[r].node2
        }
}

/// The graph holds the pieces `spans` as its roads, in their order, and the nodes at which
/// they end as its intersections.
pub open spec fn built(
    elements: Seq<Element>,
    kept: Seq<usize>,
    points: Map<i64, Pt>,
    profile: Profile,
    spans: Seq<Span>,
    g: Graph,
) -> bool {
    &&& g.wf()
    &&& g.roads@.len() == spans.len()
    &&& forall|k: int|
        0 <= k < spans.len() ==> road_of_span(
            elements,
            kept,
            points,
            profile,
            spans[k],
            #[trigger] g.roads@[k],
        )
    &&& intersections_are_nodes(points, g)
}

/// The index of intersections by node is in step with the graph.
spec fn indexed(g: Graph, at: Map<i64, usize>) -> bool {
    &&& forall|node: i64| #[trigger]
        at.contains_key(node) ==> at[node] < g.intersections@.len() && g.intersections@[at[node] as int].node.0
            == node
    &&& forall|i: int|
        0 <= i < g.intersections@.len() ==> at.contains_key(
            (#[trigger] g.intersections@[i]).node.0,
        ) && at[g.intersections@[i].node.0] == i
}

/// Finds the intersection of a node, or makes one where the node has none yet.
fn find_or_add(graph: &mut Graph, at: &mut HashMap<i64, usize>, node: NodeID, point: Pt) -> (i: usize)
    requires
        indexed(*old(graph), old(at)@),
    ensures
        indexed(*final(graph), final(at)@),
        final(graph).roads == old(graph).roads,
        i < final(graph).intersections@.len(),
        final(graph).intersections@[i as int].node == node,
        old(at)@.contains_key(node.0) ==> *final(graph) == *old(graph) && final(at)@ == old(at)@,
        !old(at)@.contains_key(node.0) ==> {
            &&& i == old(graph).intersections@.len()
            &&& final(graph).intersections@.len() == i + 1
            &&& final(graph).intersections@.take(i as int) == old(graph).intersections@
            &&& final(graph).intersections@[i as int].id.0 == i
            &&& final(graph).intersections@[i as int].point == point
            &&& final(graph).intersections@[i as int].roads@.len() == 0
        },
{
    match at.get(&node.0) {
        Some(i) => *i,
        None => {
            let i = graph.intersections.len();
            graph.intersections.push(
                Intersection { id: IntersectionID(i), point, node, roads: Vec::new() },
            );
            at.insert(node.0, i);
            assert(graph.intersections@.take(i as int) =~= old(graph).intersections@);
            i
        },
    }
}

/// Makes the road of a piece of a way, not yet tied to its intersections; `None` where the
/// extract lacks a node of the piece.
fn make_road(
    points: &HashMap<i64, Pt>,
    nodes: &Vec<NodeID>,
    from: usize,
    to: usize,
    way: WayID,
    tags: &Tags,
    kind: RoadKind,
    id: usize,
) -> (made: Option<Road>)
    requires
        from < to < nodes@.len(),
    ensures
        made is Some <==> forall|j: int|
            from <= j <= to ==> points@.contains_key((#[trigger] nodes@[j]).0),
        made matches Some(road) ==> {
            &&& road.id.0 == id
            &&& road.way == way
            &&& road.node_ids@ == nodes@.subrange(from as int, to + 1)
            &&& road.linestring@.len() == road.node_ids@.len()
            &&& forall|j: int|
                0 <= j < road.node_ids@.len() ==> #[trigger] road.linestring@[j]
                    == points@[road.node_ids@[j].0]
            &&& road.node1 == nodes@[from as int]
            &&& road.node2 == nodes@[to as int]
            &&& road.tags@ == tags@
            &&& road.kind == kind
            &&& road.walking == untravelled()
            &&& road.cross_anywhere == untravelled()
        },
{
    let mut node_ids: Vec<NodeID> = Vec::new();
    let mut linestring: Vec<Pt> = Vec::new();
    let mut j: usize = from;
    let n = nodes.len();
    while j <= to
        invariant
            from <= j <= to + 1,
            to < n,
            n == nodes@.len(),
            node_ids@ == nodes@.subrange(from as int, j as int),
            linestring@.len() == node_ids@.len(),
            forall|k: int|
                0 <= k < node_ids@.len() ==> points@.contains_key((#[trigger] node_ids@[k]).0)
                    && linestring@[k] == points@[node_ids@[k].0],
        decreases to + 1 - j,
    {
        let node = nodes[j];
        match points.get(&node.0) {
            Some(p) => {
                let ghost old_ids = node_ids@;
                let ghost old_line = linestring@;
                node_ids.push(node);
                linestring.push(*p);
                assert(node_ids@ =~= nodes@.subrange(from as int, j + 1));
                assert forall|k: int| 0 <= k < node_ids@.len() implies points@.contains_key(
                    (#[trigger] node_ids@[k]).0,
                ) && linestring@[k] == points@[node_ids@[k].0] by {
                    if k < old_ids.len() {
                        assert(node_ids@[k] == old_ids[k]);
                        assert(linestring@[k] == old_line[k]);
                    }
                }
            },
            None => {
                return None;
            },
        }
        j += 1;
    }
    proof {
        assert forall|k: int| from <= k <= to implies points@.contains_key(
            (#[trigger] nodes@[k]).0,
        ) by {
            assert(node_ids@[k - from] == nodes@[k]);
        }
    }
    Some(
        Road {
            id: RoadID(id),
            src_i: IntersectionID(0),
            dst_i: IntersectionID(0),
            way,
            node1: nodes[from],
            node2: nodes[to],
            node_ids,
            linestring,
            tags: tags.copy(),
            kind,
            walking: Travel { access: Direction::Neither, cost: 0 },
            cross_anywhere: Travel { access: Direction::Neither, cost: 0 },
        },
    )
}

/// Ties a road to the intersections of its two end nodes and puts it into the graph.
fn attach(graph: &mut Graph, at: &mut HashMap<i64, usize>, road: Road, Ghost(points): Ghost<Map<i64, Pt>>)
    requires
        old(graph).wf(),
        indexed(*old(graph), old(at)@),
        intersections_are_nodes(points, *old(graph)),
        road.id.0 == old(graph).roads@.len(),
        road.linestring@.len() >= 2,
        road.linestring@.len() == road.node_ids@.len(),
        road.node1 == road.node_ids@[0],
        road.node2 == road.node_ids@.last(),
        forall|j: int|
            0 <= j < road.node_ids@.len() ==> points.contains_key(road.node_ids@[j].0)
                && #[trigger] road.linestring@[j] == points[road.node_ids@[j].0],
    ensures
        final(graph).wf(),
        indexed(*final(graph), final(at)@),
        intersections_are_nodes(points, *final(graph)),
        final(graph).roads@.len() == old(graph).roads@.len() + 1,
        final(graph).roads@.take(old(graph).roads@.len() as int) == old(graph).roads@,
        same_but_ends(final(graph).roads@.last(), road),
{
    let ghost g0 = *graph;
    let first = road.linestring[0];
    let last = road.linestring[road.linestring.len() - 1];
    assert(first == points[road.node1.0] && last == points[road.node2.0]);
    let src = find_or_add(graph, at, road.node1, first);
    let ghost g1 = *graph;
    let dst = find_or_add(graph, at, road.node2, last);
    let ghost g2 = *graph;
    let k = graph.roads.len();
    let mut road = road;
    road.src_i = IntersectionID(src);
    road.dst_i = IntersectionID(dst);
    graph.roads.push(road);
    graph.intersections[src].roads.push(RoadID(k));
    if dst != src {
        graph.intersections[dst].roads.push(RoadID(k));
    }
    proof {
        let n0 = g0.intersections@.len() as int;
        assert(graph.roads@.take(k as int) =~= g0.roads@);
        assert forall|i: int| 0 <= i < n0 implies g2.intersections@[i] == g0.intersections@[i] by {
            assert(g1.intersections@.take(g1.intersections@.len() as int) =~= g1.intersections@);
            if g1.intersections@.len() > n0 {
                assert(g1.intersections@.take(n0)[i] == g0.intersections@[i]);
            }
            if g2.intersections@.len() > g1.intersections@.len() {
                assert(g2.intersections@.take(g1.intersections@.len() as int)[i]
                    == g1.intersections@[i]);
            }
        }
        assert forall|i: int| 0 <= i < graph.intersections@.len() implies {
            &&& graph.intersections@[i].id == g2.intersections@[i].id
            &&& graph.intersections@[i].point == g2.intersections@[i].point
            &&& graph.intersections@[i].node == g2.intersections@[i].node
            &&& graph.intersections@[i].roads@ == if i == src || i == dst {
                g2.intersections@[i].roads@.push(RoadID(k))
            } else {
                g2.intersections@[i].roads@
            }
        } by {}
        assert forall|i: int| 0 <= i < g2.intersections@.len() implies {
            &&& g2.intersections@[i].id.0 == i
            &&& g2.intersections@[i].roads@.no_duplicates()
            &&& points.contains_key(g2.intersections@[i].node.0)
            &&& g2.intersections@[i].point == points[g2.intersections@[i].node.0]
            &&& forall|q: int|
                0 <= q < g2.intersections@[i].roads@.len() ==> (
                #[trigger] g2.intersections@[i].roads@[q]).0 < k && g0.roads@[g2.intersections@[i].roads@[q].0 as int].touches(
                    i,
                )
        } by {
            if i < n0 {
                assert(g0.intersection_wf(i));
            } else if i < g1.intersections@.len() {
                assert(g2.intersections@[i] == g1.intersections@[i]) by {
                    if g2.intersections@.len() > g1.intersections@.len() {
                        assert(g2.intersections@.take(g1.intersections@.len() as int)[i]
                            == g1.intersections@[i]);
                    }
                }
            }
        }
        assert forall|r: int| 0 <= r < graph.roads@.len() implies #[trigger] graph.road_wf(r) by {
            if r < k {
                assert(g0.road_wf(r));
                assert(graph.roads@[r] == g0.roads@[r]);
                let s = g0.roads@[r].src_i.0 as int;
                let d = g0.roads@[r].dst_i.0 as int;
                assert(g2.intersections@[s].roads@.contains(RoadID(r as usize)));
                assert(g2.intersections@[d].roads@.contains(RoadID(r as usize)));
                let qs = choose|q: int|
                    0 <= q < g2.intersections@[s].roads@.len() && g2.intersections@[s].roads@[q]
                        == RoadID(r as usize);
                assert(graph.intersections@[s].roads@[qs] == RoadID(r as usize));
                let qd = choose|q: int|
                    0 <= q < g2.intersections@[d].roads@.len() && g2.intersections@[d].roads@[q]
                        == RoadID(r as usize);
                assert(graph.intersections@[d].roads@[qd] == RoadID(r as usize));
            } else {
                let ls = g2.intersections@[src as int].roads@;
                assert(graph.intersections@[src as int].roads@[ls.len() as int] == RoadID(k));
                let ld = g2.intersections@[dst as int].roads@;
                assert(graph.intersections@[dst as int].roads@[ld.len() as int] == RoadID(k));
            }
        }
        assert forall|i: int| 0 <= i < graph.intersections@.len() implies #[trigger] graph.intersection_wf(
            i,
        ) by {
            let before = g2.intersections@[i].roads@;
            let after = graph.intersections@[i].roads@;
            assert forall|q: int| 0 <= q < after.len() implies {
                &&& (#[trigger] after[q]).0 < graph.roads@.len()
                &&& graph.roads@[after[q].0 as int].touches(i)
            } by {
                if q < before.len() {
                    assert(after[q] == before[q]);
                    assert(before[q].0 < k);
                    assert(graph.roads@[before[q].0 as int] == g0.roads@[before[q].0 as int]);
                }
            }
            assert forall|a: int, b: int| 0 <= a < after.len() && 0 <= b < after.len() && a
                != b implies after[a] != after[b] by {
                if a < before.len() && b < before.len() {
                } else if a < before.len() {
                    assert(before[a].0 < k);
                } else if b < before.len() {
                    assert(before[b].0 < k);
                }
            }
        }
        assert forall|i: int, j: int|
            0 <= i < graph.intersections@.len() && 0 <= j < graph.intersections@.len() && i
                != j implies (#[trigger] graph.intersections@[i]).node != (
        #[trigger] graph.intersections@[j]).node by {
            assert(at@[graph.intersections@[i].node.0] == i);
            assert(at@[graph.intersections@[j].node.0] == j);
        }
        assert forall|i: int| 0 <= i < graph.intersections@.len() implies (
        #[trigger] graph.intersections@[i]).roads@.len() > 0 by {
            if i < n0 {
                assert(g0.intersections@[i].roads@.len() > 0);
            }
        }
        assert forall|r: int| 0 <= r < graph.roads@.len() implies {
            &&& graph.intersections@[(#[trigger] graph.roads@[r]).src_i.0 as int].node
                == graph.roads@[r].node1
            &&& graph.intersections@[graph.roads@[r].dst_i.0 as int].node == graph.roads@[r].node2
        } by {
            if r < k {
                assert(g0.road_wf(r));
                assert(graph.roads@[r] == g0.roads@[r]);
            }
        }
        assert(indexed(*graph, at@)) by {
            assert forall|node: i64| #[trigger] at@.contains_key(node) implies at@[node]
                < graph.intersections@.len() && graph.intersections@[at@[node] as int].node.0
                == node by {
                assert(g2.intersections@[at@[node] as int].node.0 == node);
            }
        }
        assert forall|i: int, a: int, b: int|
            0 <= i < graph.intersections@.len() && 0 <= a < b
                < graph.intersections@[i].roads@.len() implies (
        #[trigger] graph.intersections@[i].roads@[a]).0 < (
        #[trigger] graph.intersections@[i].roads@[b]).0 by {
            let before = g2.intersections@[i].roads@;
            if b < before.len() {
                assert(i < n0);
                assert(before[a].0 < before[b].0);
            } else {
                assert(before[a].0 < k);
            }
        }
        assert forall|i: int, j: int| 0 <= i < j < graph.intersections@.len() implies #[trigger] earlier(
            *graph,
            i,
            j,
        ) by {
            let before_i = g2.intersections@[i].roads@;
            let before_j = g2.intersections@[j].roads@;
            if j < n0 {
                assert(earlier(g0, i, j));
                assert(before_i.len() > 0 && before_j.len() > 0);
                assert(graph.intersections@[i].roads@[0] == g0.intersections@[i].roads@[0]);
                assert(graph.intersections@[j].roads@[0] == g0.intersections@[j].roads@[0]);
                assert(g0.intersection_wf(i));
                assert(g0.intersections@[i].roads@[0].0 < k);
                assert(graph.roads@[g0.intersections@[i].roads@[0].0 as int]
                    == g0.roads@[g0.intersections@[i].roads@[0].0 as int]);
            } else if i < n0 {
                assert(before_i.len() > 0);
                assert(before_i[0].0 < k);
                assert(graph.intersections@[i].roads@[0] == before_i[0]);
                assert(before_j.len() == 0);
                assert(graph.intersections@[j].roads@[0] == RoadID(k));
            } else {
                assert(before_i.len() == 0 && before_j.len() == 0);
                assert(i == src && j == dst);
                assert(graph.intersections@[i].roads@[0] == RoadID(k));
                assert(graph.intersections@[j].roads@[0] == RoadID(k));
            }
        }
    }
}

/// The pieces found once the first `n` nodes of the way `w` are passed.
pub open spec fn spans_so_far(elements: Seq<Element>, kept: Seq<usize>, w: int, n: nat) -> Seq<Span> {
    all_spans(elements, kept, w as nat) + spans_in_way(elements, kept, w, n)
}

/// What is found early stays: the pieces found at any time are the first of all pieces.
proof fn lemma_spans_grow(elements: Seq<Element>, kept: Seq<usize>, w: int, n: nat, total: nat)
    requires
        0 <= w < total <= kept.len(),
        n <= nodes_of(elements[kept[w] as int]).len(),
    ensures
        spans_so_far(elements, kept, w, n).is_prefix_of(all_spans(elements, kept, total)),
    decreases total - w, nodes_of(elements[kept[w] as int]).len() - n,
{
    let len = nodes_of(elements[kept[w] as int]).len();
    let here = spans_so_far(elements, kept, w, n);
    if n < len {
        lemma_spans_grow(elements, kept, w, n + 1, total);
        let next = spans_so_far(elements, kept, w, n + 1);
        assert(here.is_prefix_of(next)) by {
            assert(here =~= next.subrange(0, here.len() as int));
        }
        assert(here =~= all_spans(elements, kept, total).subrange(0, here.len() as int));
    } else {
        assert(here == all_spans(elements, kept, (w + 1) as nat));
        if w + 1 < total {
            lemma_spans_grow(elements, kept, w + 1, 0, total);
            assert(spans_so_far(elements, kept, w + 1, 0) =~= here);
        } else {
            assert(here =~= all_spans(elements, kept, total).subrange(0, here.len() as int));
        }
    }
}

/// A place at or before which the way is cut lies no later than the place itself.
proof fn lemma_last_cut(elements: Seq<Element>, kept: Seq<usize>, nodes: Seq<NodeID>, idx: int)
    requires
        0 <= idx,
    ensures
        0 <= last_cut(elements, kept, nodes, idx) <= idx,
    decreases idx,
{
    if idx > 0 && !cut(elements, kept, nodes, idx) {
        lemma_last_cut(elements, kept, nodes, idx - 1);
    }
}

/// What building a graph comes to: the graph of all pieces of the ways that `profile` keeps;
/// or, where a piece runs through a node that the extract does not hold, `InputMalformed`.
pub open spec fn graph_built(elements: Seq<Element>, profile: Profile, made: Result<Graph, Error>) -> bool {
    let kept = kept_ways(elements, profile, elements.len());
    let points = points_of(elements, elements.len());
    let spans = all_spans(elements, kept, kept.len());
    match made {
        Ok(g) => {
            &&& built(elements, kept, points, profile, spans, g)
            &&& forall|k: int|
                0 <= k < spans.len() ==> span_known(elements, kept, points, #[trigger] spans[k])
        },
        Err(e) => {
            &&& e == Error::InputMalformed
            &&& exists|k: int|
                0 <= k < spans.len() && !span_known(elements, kept, points, #[trigger] spans[k])
        },
    }
}

/// Builds the graph of the ways that `profile` keeps. Each such way is cut at its first and its
/// last node and at every node that comes twice or more in these ways; each piece becomes a
/// road, and each node at which a road ends an intersection. The points stay as they are in
/// the extract, and no walker takes a road until the profiles are applied.
///
/// Fails with `InputMalformed` where a piece runs through a node that the extract lacks.
pub fn build_graph(elements: &Vec<Element>, profile: Profile) -> (made: Result<Graph, Error>)
    ensures
        graph_built(elements@, profile, made),
{
    let points = collect_points(elements);
    let kept = queue_ways(elements, profile);
    let seen = count_nodes(elements, &kept);
    let mut graph = Graph::empty();
    let mut at: HashMap<i64, usize> = HashMap::new();
    let ghost total = kept@.len();
    let mut w: usize = 0;
    while w < kept.len()
        invariant
            w <= kept@.len(),
            total == kept@.len(),
            kept@ == kept_ways(elements@, profile, elements@.len()),
            points@ == points_of(elements@, elements@.len()),
            forall|k: int| 0 <= k < kept@.len() ==> (#[trigger] kept@[k]) < elements@.len() && way_kept(
                elements@[kept@[k] as int],
                profile,
            ),
            forall|node: i64|
                seen@.contains_key(node) && seen@[node] <==> #[trigger] shared(
                    elements@,
                    kept@,
                    node,
                ),
            graph.wf(),
            indexed(graph, at@),
            built(elements@, kept@, points@, profile, all_spans(elements@, kept@, w as nat), graph),
            forall|k: int|
                0 <= k < graph.roads@.len() ==> span_known(
                    elements@,
                    kept@,
                    points@,
                    #[trigger] all_spans(elements@, kept@, w as nat)[k],
                ),
        decreases kept@.len() - w,
    {
        match &elements[kept[w]] {
            Element::Way { id, node_ids, tags } => {
                let kind = match profile.classify(tags) {
                    Some(kind) => kind,
                    None => RoadKind::Footway,
                };
                let len = node_ids.len();
                let mut start: usize = 0;
                let mut idx: usize = 0;
                assert(spans_so_far(elements@, kept@, w as int, 0) =~= all_spans(
                    elements@,
                    kept@,
                    w as nat,
                ));
                while idx < len
                    invariant
                        w < kept@.len(),
                        total == kept@.len(),
                        kept@ == kept_ways(elements@, profile, elements@.len()),
                        points@ == points_of(elements@, elements@.len()),
                        kept@[w as int] < elements@.len(),
                        elements@[kept@[w as int] as int] == (Element::Way {
                            id: *id,
                            node_ids: *node_ids,
                            tags: *tags,
                        }),
                        Some(kind) == classify(profile, tags@),
                        len == node_ids@.len(),
                        idx <= len,
                        idx == 0 ==> start == 0,
                        idx > 0 ==> start == last_cut(elements@, kept@, node_ids@, idx - 1),
                        forall|node: i64|
                            seen@.contains_key(node) && seen@[node] <==> #[trigger] shared(
                                elements@,
                                kept@,
                                node,
                            ),
                        graph.wf(),
                        indexed(graph, at@),
                        built(
                            elements@,
                            kept@,
                            points@,
                            profile,
                            spans_so_far(elements@, kept@, w as int, idx as nat),
                            graph,
                        ),
                        forall|k: int|
                            0 <= k < graph.roads@.len() ==> span_known(
                                elements@,
                                kept@,
                                points@,
                                #[trigger] spans_so_far(elements@, kept@, w as int, idx as nat)[k],
                            ),
                    decreases len - idx,
                {
                    let node = node_ids[idx].0;
                    let meets = match seen.get(&node) {
                        Some(twice) => *twice,
                        None => false,
                    };
                    assert(meets == shared(elements@, kept@, node));
                    let ghost before = spans_so_far(elements@, kept@, w as int, idx as nat);
                    let ghost g0 = graph;
                    if idx > 0 && (idx == len - 1 || meets) {
                        proof {
                            lemma_last_cut(elements@, kept@, node_ids@, idx - 1);
                        }
                        let ghost span = Span { way: w as int, from: start as int, to: idx as int };
                        assert(spans_so_far(elements@, kept@, w as int, (idx + 1) as nat)
                            =~= before.push(span));
                        let made = make_road(
                            &points,
                            node_ids,
                            start,
                            idx,
                            *id,
                            tags,
                            kind,
                            graph.roads.len(),
                        );
                        let road = match made {
                            Some(road) => road,
                            None => {
                                proof {
                                    lemma_spans_grow(
                                        elements@,
                                        kept@,
                                        w as int,
                                        (idx + 1) as nat,
                                        total,
                                    );
                                    let all = all_spans(elements@, kept@, total);
                                    let k = before.len() as int;
                                    let found = spans_so_far(
                                        elements@,
                                        kept@,
                                        w as int,
                                        (idx + 1) as nat,
                                    );
                                    assert(found.is_prefix_of(all));
                                    assert(found[k] == span);
                                    assert(all.subrange(0, found.len() as int)[k] == all[k]);
                                    assert(all[k] == span);
                                    let nodes = nodes_of(elements@[kept@[w as int] as int]);
                                    assert(nodes == node_ids@);
                                    if span_known(elements@, kept@, points@, span) {
                                        assert forall|j: int| start <= j <= idx implies points@.contains_key(
                                            (#[trigger] node_ids@[j]).0,
                                        ) by {
                                            lemma_span_known_at(elements@, kept@, points@, span, j);
                                        }
                                    }
                                }
                                return Err(Error::InputMalformed);
                            },
                        };
                        assert(road.node_ids@[0] == node_ids@[start as int]);
                        assert(road.node_ids@.last() == node_ids@[idx as int]);
                        attach(&mut graph, &mut at, road, Ghost(points@));
                        proof {
                            let now = before.push(span);
                            assert forall|k: int| 0 <= k < now.len() implies road_of_span(
                                elements@,
                                kept@,
                                points@,
                                profile,
                                now[k],
                                #[trigger] graph.roads@[k],
                            ) by {
                                if k < before.len() {
                                    assert(graph.roads@.take(before.len() as int)[k] == g0.roads@[k]);
                                    assert(road_of_span(
                                        elements@,
                                        kept@,
                                        points@,
                                        profile,
                                        before[k],
                                        g0.roads@[k],
                                    ));
                                }
                            }
                            assert forall|k: int| 0 <= k < graph.roads@.len() implies span_known(
                                elements@,
                                kept@,
                                points@,
                                #[trigger] spans_so_far(
                                    elements@,
                                    kept@,
                                    w as int,
                                    (idx + 1) as nat,
                                )[k],
                            ) by {
                                if k < before.len() {
                                    assert(span_known(elements@, kept@, points@, before[k]));
                                }
                            }
                        }
                        start = idx;
                    } else {
                        assert(spans_so_far(elements@, kept@, w as int, (idx + 1) as nat) =~= before);
                    }
                    idx += 1;
                }
                assert(spans_so_far(elements@, kept@, w as int, len as nat) =~= all_spans(
                    elements@,
                    kept@,
                    (w + 1) as nat,
                ));
            },
            _ => {
                assert(false);
            },
        }
        w += 1;
    }
    Ok(graph)
}

} // verus!
