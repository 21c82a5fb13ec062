//! Finding the islands of the walking network: the parts that hang together without a
//! severance.

use crate::graph::Graph;
use crate::model::MapModel;
use crate::profiles::RoadKind;
use vstd::prelude::*;

verus! {

/// The edge links the nodes `a` and `b`, in either direction.
pub open spec fn links(edge: (usize, usize), a: usize, b: usize) -> bool {
    (edge.0 == a && edge.1 == b) || (edge.0 == b && edge.1 == a)
}

/// The nodes of `path` follow one another along edges.
pub open spec fn chain(edges: Seq<(usize, usize)>, path: Seq<usize>) -> bool {
    forall|i: int|
        0 <= i < path.len() - 1 ==> exists|e: int|
            0 <= e < edges.len() && links(#[trigger] edges[e], #[trigger] path[i], path[i + 1])
}

/// One gets from `a` to `b` along edges.
pub open spec fn connected(edges: Seq<(usize, usize)>, a: usize, b: usize) -> bool {
    exists|path: Seq<usize>|
        path.len() > 0 && path[0] == a && path.last() == b && #[trigger] chain(edges, path)
}

/// The node is an end of an edge.
pub open spec fn is_node(edges: Seq<(usize, usize)>, node: usize) -> bool {
    exists|e: int| 0 <= e < edges.len() && ((#[trigger] edges[e]).0 == node || edges[e].1 == node)
}

/// The parts are the connected components of the graph that the edges make: no part is empty,
/// each part holds ends of edges, each end of an edge is in one part, once, and two nodes are in
/// the same part exactly when one gets from the one to the other along edges.
pub open spec fn components_of(edges: Seq<(usize, usize)>, parts: Seq<Vec<usize>>) -> bool {
    &&& forall|k: int| 0 <= k < parts.len() ==> (#[trigger] parts[k])@.len() > 0
    &&& forall|k: int, m: int|
        0 <= k < parts.len() && 0 <= m < parts[k]@.len() ==> is_node(edges, #[trigger] parts[k]@[m])
    &&& forall|node: usize|
        is_node(edges, node) ==> exists|k: int, m: int|
            0 <= k < parts.len() && 0 <= m < parts[k]@.len() && #[trigger] parts[k]@[m] == node
    &&& forall|k: int, m: int, k2: int, m2: int|
        0 <= k < parts.len() && 0 <= m < parts[k]@.len() && 0 <= k2 < parts.len() && 0 <= m2
            < parts[k2]@.len() && (k != k2 || m != m2) ==> #[trigger] parts[k]@[m]
            != #[trigger] parts[k2]@[m2]
    &&& forall|k: int, m: int, k2: int, m2: int|
        0 <= k < parts.len() && 0 <= m < parts[k]@.len() && 0 <= k2 < parts.len() && 0 <= m2
            < parts[k2]@.len() ==> (connected(edges, #[trigger] parts[k]@[m], #[trigger] parts[k2]@[m2])
            <==> k == k2)
}

/// The node `node` is the item `m` of the part `k`.
pub open spec fn placed(parts: Seq<Vec<usize>>, node: usize, k: int, m: int) -> bool {
    0 <= k < parts.len() && 0 <= m < parts[k]@.len() && parts[k]@[m] == node
}

/// `petgraph::algo::kosaraju_scc` on the undirected `GraphMap` that `from_edges` makes of the
/// edges. For an undirected graph the strongly connected components are the connected
/// components: every node of the graph is in one component, and two nodes are in one component
/// exactly when a path of edges joins them. In which order the components and their nodes
/// come is left open.
#[verifier::external_body]
fn connected_components(edges: &Vec<(usize, usize)>) -> (parts: Vec<Vec<usize>>)
    ensures
        components_of(edges@, parts@),
{
    let graph = petgraph::graphmap::UnGraphMap::<usize, ()>::from_edges(edges.iter());
    petgraph::algo::kosaraju_scc(&graph)
}

/// The ends of the roads among the first `n` that are no severances.
pub open spec fn walkable_edges(g: Graph, n: nat) -> Seq<(usize, usize)>
    decreases n,
{
    if n == 0 {
        Seq::empty()
    } else {
        let before = walkable_edges(g, (n - 1) as nat);
        if g.roads@[n - 1].kind == RoadKind::Severance {
            before
        } else {
            before.push((g.roads@[n - 1].src_i.0, g.roads@[n - 1].dst_i.0))
        }
    }
}

/// The islands of a network: for each road the island that it belongs to, if it is no
/// severance; how many roads each island has; and these sizes from the largest down.
#[derive(Debug)]
pub struct Components {
    /// The island of each road, by the road's index.
    pub island: Vec<Option<usize>>,
    /// The number of roads of each island.
    pub sizes: Vec<usize>,
    /// The numbers of roads of the islands, from the largest down.
    pub component_sizes: Vec<usize>,
}

/// How many of the first `n` roads belong to the island `k`.
pub open spec fn island_count(island: Seq<Option<usize>>, k: usize, n: nat) -> nat
    decreases n,
{
    if n == 0 {
        0
    } else {
        island_count(island, k, (n - 1) as nat) + if island[n - 1] == Some(k) {
            1nat
        } else {
            0nat
        }
    }
}

/// The numbers come from the largest down.
pub open spec fn descending(sizes: Seq<usize>) -> bool {
    forall|i: int, j: int| 0 <= i <= j < sizes.len() ==> sizes[i] >= sizes[j]
}

/// The island `k` has a road.
pub open spec fn inhabited(island: Seq<Option<usize>>, k: usize) -> bool {
    exists|r: int| 0 <= r < island.len() && #[trigger] island[r] == Some(k)
}

/// What finding the islands comes to. A road belongs to an island exactly when it is no
/// severance; two roads belong to one island exactly when one gets from the one to the other
/// without a severance; every island has a road; each size is the number of roads of its
/// island, so none is 0; and the sizes come once more from the largest down.
pub open spec fn islands_of(g: Graph, found: Components) -> bool {
    let edges = walkable_edges(g, g.roads@.len());
    let island = found.island@;
    &&& island.len() == g.roads@.len()
    &&& forall|r: int|
        0 <= r < g.roads@.len() ==> (#[trigger] island[r] is Some <==> g.roads@[r].kind
            != RoadKind::Severance)
    &&& forall|r: int|
        0 <= r < g.roads@.len() ==> (#[trigger] island[r] matches Some(k) ==> k
            < found.sizes@.len())
    &&& forall|r: int, q: int|
        0 <= r < g.roads@.len() && 0 <= q < g.roads@.len() && island[r] is Some && island[q] is Some
            ==> (#[trigger] island[r] == #[trigger] island[q] <==> connected(
            edges,
            g.roads@[r].src_i.0,
            g.roads@[q].src_i.0,
        ))
    &&& forall|k: usize| k < found.sizes@.len() ==> #[trigger] inhabited(island, k)
    &&& forall|k: int|
        0 <= k < found.sizes@.len() ==> #[trigger] found.sizes@[k] == island_count(
            island,
            k as usize,
            island.len(),
        ) && found.sizes@[k] > 0
    &&& descending(found.component_sizes@)
    &&& found.component_sizes@.to_multiset() == found.sizes@.to_multiset()
}

fn walkable(g: &Graph) -> (edges: Vec<(usize, usize)>)
    ensures
        edges@ == walkable_edges(*g, g.roads@.len()),
{
    let mut edges: Vec<(usize, usize)> = Vec::new();
    let mut r: usize = 0;
    while r < g.roads.len()
        invariant
            r <= g.roads@.len(),
            edges@ == walkable_edges(*g, r as nat),
        decreases g.roads@.len() - r,
    {
        match g.roads[r].kind {
            RoadKind::Severance => {},
            _ => {
                edges.push((g.roads[r].src_i.0, g.roads[r].dst_i.0));
            },
        }
        r += 1;
    }
    edges
}

/// Each edge joins the two ends of a road that is no severance, and each such road has its
/// edge.
proof fn lemma_walkable_edges(g: Graph, n: nat)
    requires
        n <= g.roads@.len(),
    ensures
        forall|e: int|
            0 <= e < walkable_edges(g, n).len() ==> exists|r: int|
                0 <= r < n && g.roads@[r].kind != RoadKind::Severance && #[trigger] walkable_edges(
                    g,
                    n,
                )[e] == (#[trigger] g.roads@[r].src_i.0, g.roads@[r].dst_i.0),
        forall|r: int|
            0 <= r < n && g.roads@[r].kind != RoadKind::Severance ==> exists|e: int|
                0 <= e < walkable_edges(g, n).len() && #[trigger] walkable_edges(g, n)[e] == (
                    (#[trigger] g.roads@[r]).src_i.0,
                    g.roads@[r].dst_i.0,
                ),
    decreases n,
{
    if n > 0 {
        lemma_walkable_edges(g, (n - 1) as nat);
        let before = walkable_edges(g, (n - 1) as nat);
        let now = walkable_edges(g, n);
        assert forall|e: int| 0 <= e < now.len() implies exists|r: int|
            0 <= r < n && g.roads@[r].kind != RoadKind::Severance && #[trigger] now[e] == (
                #[trigger] g.roads@[r].src_i.0,
                g.roads@[r].dst_i.0,
            ) by {
            if e < before.len() {
                let r = choose|r: int|
                    0 <= r < n - 1 && g.roads@[r].kind != RoadKind::Severance && #[trigger] before[e]
                        == (#[trigger] g.roads@[r].src_i.0, g.roads@[r].dst_i.0);
                assert(now[e] == (g.roads@[r].src_i.0, g.roads@[r].dst_i.0));
            } else {
                assert(now[e] == (g.roads@[n - 1].src_i.0, g.roads@[n - 1].dst_i.0));
            }
        }
        assert forall|r: int| 0 <= r < n && g.roads@[r].kind != RoadKind::Severance implies exists|
            e: int,
        |
            0 <= e < now.len() && #[trigger] now[e] == (
                (#[trigger] g.roads@[r]).src_i.0,
                g.roads@[r].dst_i.0,
            ) by {
            if r < n - 1 {
                let e = choose|e: int|
                    0 <= e < before.len() && #[trigger] before[e] == (
                        g.roads@[r].src_i.0,
                        g.roads@[r].dst_i.0,
                    );
                assert(now[e] == before[e]);
            } else {
                assert(now[now.len() - 1] == (g.roads@[r].src_i.0, g.roads@[r].dst_i.0));
            }
        }
    }
}

/// Sorts numbers from the largest down.
pub fn sort_descending(sizes: &Vec<usize>) -> (sorted: Vec<usize>)
    ensures
        descending(sorted@),
        sorted@.to_multiset() == sizes@.to_multiset(),
{
    broadcast use vstd::multiset::group_multiset_axioms;

    let mut rest: Vec<usize> = Vec::new();
    let mut i: usize = 0;
    while i < sizes.len()
        invariant
            i <= sizes@.len(),
            rest@ == sizes@.take(i as int),
        decreases sizes@.len() - i,
    {
        rest.push(sizes[i]);
        assert(rest@ =~= sizes@.take(i + 1));
        i += 1;
    }
    assert(sizes@.take(i as int) =~= sizes@);
    let mut sorted: Vec<usize> = Vec::new();
    proof {
        sorted@.to_multiset_ensures();
        assert(sorted@.to_multiset().len() == 0);
        assert(sorted@.to_multiset() =~= vstd::multiset::Multiset::<usize>::empty());
    }
    assert(sorted@.to_multiset().add(rest@.to_multiset()) =~= sizes@.to_multiset());
    while rest.len() > 0
        invariant
            descending(sorted@),
            sorted@.to_multiset().add(rest@.to_multiset()) == sizes@.to_multiset(),
            forall|a: int, b: int|
                0 <= a < sorted@.len() && 0 <= b < rest@.len() ==> sorted@[a] >= rest@[b],
        decreases rest@.len(),
    {
        let mut best: usize = 0;
        let mut j: usize = 1;
        while j < rest.len()
            invariant
                rest@.len() > 0,
                1 <= j <= rest@.len(),
                best < j,
                forall|b: int| 0 <= b < j ==> rest@[best as int] >= rest@[b],
            decreases rest@.len() - j,
        {
            if rest[j] > rest[best] {
                best = j;
            }
            j += 1;
        }
        let ghost before_rest = rest@;
        let ghost before_sorted = sorted@;
        let top = rest.remove(best);
        sorted.push(top);
        proof {
            vstd::seq_lib::to_multiset_remove(before_rest, best as int);
            vstd::seq_lib::to_multiset_build(before_sorted, top);
            before_rest.to_multiset_ensures();
            assert(before_rest.contains(top));
            assert(before_rest.to_multiset().count(top) > 0);
            assert(rest@ == before_rest.remove(best as int));
            assert(before_rest.to_multiset() =~= rest@.to_multiset().insert(top));
            assert(sorted@.to_multiset() =~= before_sorted.to_multiset().insert(top));
            assert(sorted@.to_multiset().add(rest@.to_multiset()) =~= before_sorted.to_multiset().add(
                before_rest.to_multiset(),
            ));
            assert forall|a: int, b: int| 0 <= a < sorted@.len() && 0 <= b < rest@.len() implies sorted@[a]
                >= rest@[b] by {
                let bb = if b < best {
                    b
                } else {
                    b + 1
                };
                assert(rest@[b] == before_rest[bb]);
                if a < before_sorted.len() {
                    assert(sorted@[a] == before_sorted[a]);
                }
            }
            assert forall|a: int, b: int| 0 <= a <= b < sorted@.len() implies sorted@[a]
                >= sorted@[b] by {
                if b < before_sorted.len() {
                } else if a < before_sorted.len() {
                    assert(before_sorted[a] >= before_rest[best as int]);
                }
            }
        }
    }
    proof {
        rest@.to_multiset_ensures();
        assert(rest@.to_multiset().len() == 0);
        assert(rest@.to_multiset() =~= vstd::multiset::Multiset::<usize>::empty());
        assert(sorted@.to_multiset().add(rest@.to_multiset()) =~= sorted@.to_multiset());
    }
    sorted
}

/// Where the intersection `i` has a part, the part is one of the first `bound` and holds it.
spec fn part_known(parts: Seq<Vec<usize>>, part_of: Seq<Option<usize>>, i: int, bound: int) -> bool {
    part_of[i] is Some ==> part_of[i].unwrap() < bound && exists|m: int| #[trigger]
        placed(parts, i as usize, part_of[i].unwrap() as int, m)
}

/// Finds the part of each intersection that is in one.
fn parts_by_node(parts: &Vec<Vec<usize>>, n: usize, Ghost(edges): Ghost<Seq<(usize, usize)>>) -> (part_of: Vec<
    Option<usize>,
>)
    requires
        components_of(edges, parts@),
        forall|node: usize| is_node(edges, node) ==> node < n,
    ensures
        part_of@.len() == n,
        forall|i: int| 0 <= i < n ==> #[trigger] part_known(parts@, part_of@, i, parts@.len() as int),
        forall|k: int, m: int|
            0 <= k < parts@.len() && 0 <= m < parts@[k]@.len() ==> part_of@[(
            #[trigger] parts@[k]@[m]) as int] == Some(k as usize),
{
    let mut part_of: Vec<Option<usize>> = Vec::new();
    let mut i: usize = 0;
    while i < n
        invariant
            i <= n,
            part_of@.len() == i,
            forall|j: int| 0 <= j < i ==> #[trigger] part_of@[j] is None,
        decreases n - i,
    {
        part_of.push(None);
        i += 1;
    }
    let mut k: usize = 0;
    while k < parts.len()
        invariant
            components_of(edges, parts@),
            forall|node: usize| is_node(edges, node) ==> node < n,
            k <= parts@.len(),
            part_of@.len() == n,
            forall|i: int| 0 <= i < n ==> #[trigger] part_known(parts@, part_of@, i, k as int),
            forall|q: int, m: int|
                0 <= q < k && 0 <= m < parts@[q]@.len() ==> part_of@[(
                #[trigger] parts@[q]@[m]) as int] == Some(q as usize),
        decreases parts@.len() - k,
    {
        let mut m: usize = 0;
        proof {
            assert forall|i: int| 0 <= i < n implies #[trigger] part_known(parts@, part_of@, i, k + 1) by {
                assert(part_known(parts@, part_of@, i, k as int));
            }
        }
        while m < parts[k].len()
            invariant
                components_of(edges, parts@),
                forall|node: usize| is_node(edges, node) ==> node < n,
                k < parts@.len(),
                m <= parts@[k as int]@.len(),
                part_of@.len() == n,
                forall|i: int| 0 <= i < n ==> #[trigger] part_known(parts@, part_of@, i, k + 1),
                forall|q: int, m2: int|
                    0 <= q < k && 0 <= m2 < parts@[q]@.len() ==> part_of@[(
                    #[trigger] parts@[q]@[m2]) as int] == Some(q as usize),
                forall|m2: int|
                    0 <= m2 < m ==> part_of@[(#[trigger] parts@[k as int]@[m2]) as int] == Some(k),
            decreases parts@[k as int]@.len() - m,
        {
            let node = parts[k][m];
            assert(is_node(edges, parts@[k as int]@[m as int]));
            let ghost before = part_of@;
            part_of[node] = Some(k);
            proof {
                assert(placed(parts@, node, k as int, m as int));
                assert forall|i: int| 0 <= i < n implies #[trigger] part_known(
                    parts@,
                    part_of@,
                    i,
                    k + 1,
                ) by {
                    if i != node {
                        assert(part_known(parts@, before, i, k + 1));
                        assert(part_of@[i] == before[i]);
                        assert(part_known(parts@, part_of@, i, k + 1));
                    } else {
                        assert(part_of@[i] == Some(k));
                        assert(placed(parts@, i as usize, k as int, m as int));
                        assert(part_known(parts@, part_of@, i, k + 1));
                    }
                }
                assert forall|q: int, m2: int|
                    0 <= q < k && 0 <= m2 < parts@[q]@.len() implies part_of@[(
                #[trigger] parts@[q]@[m2]) as int] == Some(q as usize) by {
                    assert(parts@[q]@[m2] != parts@[k as int]@[m as int]);
                }
                assert forall|m2: int| 0 <= m2 < m + 1 implies part_of@[(
                #[trigger] parts@[k as int]@[m2]) as int] == Some(k) by {
                    if m2 < m {
                        assert(parts@[k as int]@[m2] != parts@[k as int]@[m as int]);
                    }
                }
            }
            m += 1;
        }
        k += 1;
    }
    part_of
}

/// The island of a road, given the part of each intersection: none for a severance, the part
/// of its source for any other road.
pub open spec fn island_of(g: Graph, part_of: Seq<Option<usize>>, r: int) -> Option<usize> {
    if g.roads@[r].kind == RoadKind::Severance {
        None
    } else {
        part_of[g.roads@[r].src_i.0 as int]
    }
}

/// A road has the part `k` as its island.
spec fn has_road(g: Graph, part_of: Seq<Option<usize>>, k: usize) -> bool {
    exists|r: int| 0 <= r < g.roads@.len() && #[trigger] island_of(g, part_of, r) == Some(k)
}

/// Sorts the roads by island and counts the roads of each island.
fn assign_islands(g: &Graph, part_of: &Vec<Option<usize>>, n_parts: usize) -> (found: (
    Vec<Option<usize>>,
    Vec<usize>,
))
    requires
        g.wf(),
        part_of@.len() == g.intersections@.len(),
        forall|i: int| 0 <= i < part_of@.len() ==> (#[trigger] part_of@[i] matches Some(q) ==> q < n_parts),
    ensures
        found.0@.len() == g.roads@.len(),
        forall|r: int| 0 <= r < g.roads@.len() ==> #[trigger] found.0@[r] == island_of(*g, part_of@, r),
        found.1@.len() == n_parts,
        forall|k: int|
            0 <= k < n_parts ==> #[trigger] found.1@[k] == island_count(
                found.0@,
                k as usize,
                found.0@.len(),
            ),
{
    let mut island: Vec<Option<usize>> = Vec::new();
    let mut sizes: Vec<usize> = Vec::new();
    let mut k: usize = 0;
    while k < n_parts
        invariant
            k <= n_parts,
            sizes@.len() == k,
            forall|j: int| 0 <= j < k ==> #[trigger] sizes@[j] == 0,
        decreases n_parts - k,
    {
        sizes.push(0);
        k += 1;
    }
    let mut r: usize = 0;
    while r < g.roads.len()
        invariant
            g.wf(),
            part_of@.len() == g.intersections@.len(),
            forall|i: int|
                0 <= i < part_of@.len() ==> (#[trigger] part_of@[i] matches Some(q) ==> q < n_parts),
            r <= g.roads@.len(),
            island@.len() == r,
            sizes@.len() == n_parts,
            forall|q: int| 0 <= q < r ==> #[trigger] island@[q] == island_of(*g, part_of@, q),
            forall|j: int|
                0 <= j < n_parts ==> #[trigger] sizes@[j] == island_count(island@, j as usize, r as nat)
                    && sizes@[j] <= r,
        decreases g.roads@.len() - r,
    {
        assert(g.road_wf(r as int));
        let ghost old_island = island@;
        let ghost old_sizes = sizes@;
        let at = match g.roads[r].kind {
            RoadKind::Severance => None,
            _ => part_of[g.roads[r].src_i.0],
        };
        island.push(at);
        match at {
            Some(j) => {
                assert(part_of@[g.roads@[r as int].src_i.0 as int] == Some(j));
                sizes[j] = sizes[j] + 1;
            },
            None => {},
        }
        proof {
            assert(island@[r as int] == at);
            assert forall|j: int| 0 <= j < n_parts implies #[trigger] sizes@[j] == island_count(
                island@,
                j as usize,
                (r + 1) as nat,
            ) && sizes@[j] <= r + 1 by {
                lemma_count_prefix(old_island, island@, j as usize, r as nat);
                assert(old_sizes[j] == island_count(old_island, j as usize, r as nat));
                assert(island_count(island@, j as usize, (r + 1) as nat) == island_count(
                    island@,
                    j as usize,
                    r as nat,
                ) + if island@[r as int] == Some(j as usize) {
                    1nat
                } else {
                    0nat
                });
                if at == Some(j as usize) {
                    assert(sizes@[j] == old_sizes[j] + 1);
                } else {
                    assert(sizes@[j] == old_sizes[j]);
                }
            }
        }
        r += 1;
    }
    (island, sizes)
}

/// Where the parts are the components of the walkable edges, two roads that are no severances
/// have sources in one part exactly when one gets from the one to the other, and the source
/// of every such road is in a part.
proof fn lemma_islands(g: Graph, edges: Seq<(usize, usize)>, parts: Seq<Vec<usize>>, part_of: Seq<Option<usize>>)
    requires
        g.wf(),
        edges == walkable_edges(g, g.roads@.len()),
        components_of(edges, parts),
        part_of.len() == g.intersections@.len(),
        forall|i: int| 0 <= i < part_of.len() ==> #[trigger] part_known(parts, part_of, i, parts.len() as int),
        forall|k: int, m: int|
            0 <= k < parts.len() && 0 <= m < parts[k]@.len() ==> part_of[(
            #[trigger] parts[k]@[m]) as int] == Some(k as usize),
    ensures
        forall|r: int|
            0 <= r < g.roads@.len() ==> (#[trigger] island_of(g, part_of, r) is Some <==> g.roads@[r].kind
                != RoadKind::Severance),
        forall|r: int|
            0 <= r < g.roads@.len() ==> (#[trigger] island_of(g, part_of, r) matches Some(k) ==> k
                < parts.len()),
        forall|a: int, b: int|
            0 <= a < g.roads@.len() && 0 <= b < g.roads@.len() && island_of(g, part_of, a) is Some
                && island_of(g, part_of, b) is Some ==> (#[trigger] island_of(g, part_of, a)
                == #[trigger] island_of(g, part_of, b) <==> connected(
                edges,
                g.roads@[a].src_i.0,
                g.roads@[b].src_i.0,
            )),
        forall|k: usize| k < parts.len() ==> #[trigger] has_road(g, part_of, k),
{
    lemma_walkable_edges(g, g.roads@.len());
    assert forall|k: usize| k < parts.len() implies #[trigger] has_road(g, part_of, k) by {
        assert(parts[k as int]@.len() > 0);
        let node = parts[k as int]@[0];
        assert(is_node(edges, node));
        assert(part_of[parts[k as int]@[0] as int] == Some(k));
        let e = choose|e: int|
            0 <= e < edges.len() && ((#[trigger] edges[e]).0 == node || edges[e].1 == node);
        let r = choose|r: int|
            0 <= r < g.roads@.len() && g.roads@[r].kind != RoadKind::Severance && #[trigger] edges[e]
                == (#[trigger] g.roads@[r].src_i.0, g.roads@[r].dst_i.0);
        let src = g.roads@[r].src_i.0;
        if src != node {
            assert(is_node(edges, src));
            let (k2, m2) = choose|k2: int, m2: int|
                0 <= k2 < parts.len() && 0 <= m2 < parts[k2]@.len() && #[trigger] parts[k2]@[m2]
                    == src;
            let path = seq![src, node];
            assert forall|i: int| 0 <= i < path.len() - 1 implies exists|e2: int|
                0 <= e2 < edges.len() && links(#[trigger] edges[e2], #[trigger] path[i], path[i + 1]) by {
                assert(links(edges[e], path[0], path[1]));
            }
            assert(path.len() > 0 && path[0] == src && path.last() == node && chain(edges, path));
            assert(connected(edges, src, node));
            assert(connected(edges, parts[k2]@[m2], parts[k as int]@[0]) <==> k2 == k);
            assert(part_of[parts[k2]@[m2] as int] == Some(k2 as usize));
        }
        assert(island_of(g, part_of, r) == Some(k));
    }
    assert forall|r: int| 0 <= r < g.roads@.len() implies (#[trigger] island_of(g, part_of, r) is Some
        <==> g.roads@[r].kind != RoadKind::Severance) && (island_of(g, part_of, r) matches Some(k)
        ==> k < parts.len()) by {
        assert(g.road_wf(r));
        if g.roads@[r].kind != RoadKind::Severance {
            let node = g.roads@[r].src_i.0;
            let e = choose|e: int|
                0 <= e < edges.len() && #[trigger] edges[e] == (
                    (#[trigger] g.roads@[r]).src_i.0,
                    g.roads@[r].dst_i.0,
                );
            assert(is_node(edges, node));
            let (k0, m0) = choose|k0: int, m0: int|
                0 <= k0 < parts.len() && 0 <= m0 < parts[k0]@.len() && #[trigger] parts[k0]@[m0]
                    == node;
            assert(part_of[parts[k0]@[m0] as int] == Some(k0 as usize));
        }
        if island_of(g, part_of, r) is Some {
            assert(part_known(parts, part_of, g.roads@[r].src_i.0 as int, parts.len() as int));
        }
    }
    assert forall|a: int, b: int|
        0 <= a < g.roads@.len() && 0 <= b < g.roads@.len() && island_of(g, part_of, a) is Some
            && island_of(g, part_of, b) is Some implies (#[trigger] island_of(g, part_of, a)
        == #[trigger] island_of(g, part_of, b) <==> connected(
        edges,
        g.roads@[a].src_i.0,
        g.roads@[b].src_i.0,
    )) by {
        let ka = island_of(g, part_of, a).unwrap();
        let kb = island_of(g, part_of, b).unwrap();
        let na = g.roads@[a].src_i.0;
        let nb = g.roads@[b].src_i.0;
        assert(g.road_wf(a) && g.road_wf(b));
        assert(part_known(parts, part_of, na as int, parts.len() as int));
        assert(part_known(parts, part_of, nb as int, parts.len() as int));
        let ma = choose|m: int| #[trigger] placed(parts, na, ka as int, m);
        let mb = choose|m: int| #[trigger] placed(parts, nb, kb as int, m);
        assert(connected(edges, parts[ka as int]@[ma], parts[kb as int]@[mb]) <==> ka == kb);
    }
}

/// Finds the islands of the walking network: the parts that hang together by roads that are
/// no severances.
pub fn find_connected_components(map: &MapModel) -> (found: Components)
    requires
        map.wf(),
    ensures
        islands_of(map.graph, found),
{
    let g = &map.graph;
    let edges = walkable(g);
    let parts = connected_components(&edges);
    let n = g.intersections.len();
    proof {
        lemma_walkable_edges(*g, g.roads@.len());
        assert forall|node: usize| is_node(edges@, node) implies node < n by {
            let e = choose|e: int|
                0 <= e < edges@.len() && ((#[trigger] edges@[e]).0 == node || edges@[e].1 == node);
            let r = choose|r: int|
                0 <= r < g.roads@.len() && g.roads@[r].kind != RoadKind::Severance
                    && #[trigger] edges@[e] == (#[trigger] g.roads@[r].src_i.0, g.roads@[r].dst_i.0);
            assert(g.road_wf(r));
        }
    }
    let part_of = parts_by_node(&parts, n, Ghost(edges@));
    proof {
        lemma_islands(*g, edges@, parts@, part_of@);
        assert forall|i: int| 0 <= i < part_of@.len() implies (#[trigger] part_of@[i] matches Some(q)
            ==> q < parts@.len()) by {
            assert(part_known(parts@, part_of@, i, parts@.len() as int));
        }
    }
    let (island, sizes) = assign_islands(g, &part_of, parts.len());
    let component_sizes = sort_descending(&sizes);
    proof {
        assert forall|k: usize| k < sizes@.len() implies #[trigger] inhabited(island@, k)
            && sizes@[k as int] > 0 by {
            assert(has_road(*g, part_of@, k));
            let r = choose|r: int|
                0 <= r < g.roads@.len() && #[trigger] island_of(*g, part_of@, r) == Some(k);
            assert(island@[r] == Some(k));
            lemma_count_positive(island@, k, island@.len(), r);
        }
        assert forall|k: int| 0 <= k < sizes@.len() implies #[trigger] sizes@[k] > 0 by {
            assert(inhabited(island@, k as usize));
        }
    }
    Components { island, sizes, component_sizes }
}

/// The count of the first roads of an island does not depend on the roads that come after.
proof fn lemma_count_prefix(a: Seq<Option<usize>>, b: Seq<Option<usize>>, k: usize, n: nat)
    requires
        n <= a.len(),
        n <= b.len(),
        forall|i: int| 0 <= i < n ==> a[i] == b[i],
    ensures
        island_count(a, k, n) == island_count(b, k, n),
        island_count(a, k, n) <= n,
    decreases n,
{
    if n > 0 {
        lemma_count_prefix(a, b, k, (n - 1) as nat);
    }
}

/// An island with a road among the first `n` counts at least one road among them.
proof fn lemma_count_positive(island: Seq<Option<usize>>, k: usize, n: nat, r: int)
    requires
        0 <= r < n <= island.len(),
        island[r] == Some(k),
    ensures
        island_count(island, k, n) > 0,
    decreases n,
{
    if r < n - 1 {
        lemma_count_positive(island, k, (n - 1) as nat, r);
    }
}

impl MapModel {
    /// Finds the islands of the walking network.
    pub fn find_connected_components(&self) -> (found: Components)
        requires
            self.wf(),
        ensures
            islands_of(self.graph, found),
    {
        find_connected_components(self)
    }
}

} // verus!
